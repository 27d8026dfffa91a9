//! The persisted record format: a JSON array of `{x1, y1, x2, y2, name}`
//! records, with the fixed-point coordinates written as decimals with
//! exactly six fractional digits. Serialization and parsing are both
//! specified against the same canonical byte representation, so together
//! their contracts give the round trip: parsing what was serialized
//! yields the original records.

use vstd::prelude::*;
use crate::config::{JsonConfig, JsonConfigV};
use crate::config_data::ConfigData;
use crate::fixed::{coord_ok, COORD_LIMIT, UNIT};
use vstd::arithmetic::div_mod::lemma_fundamental_div_mod;
use vstd::arithmetic::div_mod::lemma_fundamental_div_mod_converse;
use vstd::arithmetic::div_mod::lemma_div_is_ordered;

verus! {

/// An ASCII decimal digit.
pub open spec fn is_digit(b: u8) -> bool {
    48 <= b <= 57
}

/// Numeric value of a digit byte.
pub open spec fn digit_val(b: u8) -> int {
    b - 48
}

/// Digit byte of a value in `0..=9`.
pub open spec fn digit_of(n: int) -> u8 {
    (48 + n) as u8
}

/// Decimal digits of `n`, most significant first, without leading zeros
/// (`0` itself is the single digit `0`).
pub open spec fn dec_digits(n: nat) -> Seq<u8>
    decreases n,
{
    if n < 10 {
        seq![digit_of(n as int)]
    } else {
        dec_digits(n / 10).push(digit_of((n % 10) as int))
    }
}

/// Exactly `k` decimal digits of `n`, most significant first, zero
/// padded on the left. Well defined for `n < 10^k`.
pub open spec fn fixed_digits(n: nat, k: nat) -> Seq<u8>
    decreases k,
{
    if k == 0 {
        Seq::empty()
    } else {
        fixed_digits(n / 10, (k - 1) as nat).push(digit_of((n % 10) as int))
    }
}

/// Value of a digit string, most significant first.
pub open spec fn digits_val(s: Seq<u8>) -> int
    decreases s.len(),
{
    if s.len() == 0 {
        0
    } else {
        digits_val(s.drop_last()) * 10 + digit_val(s.last())
    }
}

/// All bytes of `s` are digits.
pub open spec fn all_digits(s: Seq<u8>) -> bool {
    forall|i: int| 0 <= i < s.len() ==> is_digit(#[trigger] s[i])
}

/// Canonical bytes of a coordinate `r`: optional minus sign, the integer
/// part of `|r| / UNIT` without leading zeros, a dot, and the fractional
/// part in exactly six digits.
pub open spec fn num_repr(r: int) -> Seq<u8> {
    let m = if r >= 0 { r } else { -r };
    let sign: Seq<u8> = if r < 0 { seq![45u8] } else { Seq::empty() };
    sign + dec_digits((m / (UNIT as int)) as nat) + seq![46u8] + fixed_digits(
        (m % (UNIT as int)) as nat,
        6,
    )
}

/// `dec_digits` produces at least one digit, all digit bytes, no leading
/// zero unless the value is a single digit, and its value is `n`.
pub proof fn lemma_dec_digits(n: nat)
    ensures
        dec_digits(n).len() >= 1,
        all_digits(dec_digits(n)),
        digits_val(dec_digits(n)) == n,
        dec_digits(n).len() > 1 ==> dec_digits(n)[0] != 48,
        n < 10 ==> dec_digits(n).len() == 1,
    decreases n,
{
    reveal_with_fuel(digits_val, 3);
    if n < 10 {
        let s = dec_digits(n);
        assert(s.drop_last() =~= Seq::<u8>::empty());
        assert(digits_val(s) == n);
    } else {
        lemma_dec_digits(n / 10);
        let s = dec_digits(n);
        let p = dec_digits(n / 10);
        assert(s.drop_last() == p);
        assert(digits_val(s) == digits_val(p) * 10 + (n % 10));
        lemma_fundamental_div_mod(n as int, 10);
        assert(s[0] == p[0]);
        assert(n / 10 >= 1) by (nonlinear_arith)
            requires
                n >= 10,
        ;
        if n / 10 < 10 {
            assert(p[0] == digit_of((n / 10) as int));
        }
    }
}

/// `fixed_digits` of `n < 10^k` has length `k`, all digit bytes, and
/// value `n`.
pub proof fn lemma_fixed_digits(n: nat, k: nat)
    requires
        n < pow10(k),
    ensures
        fixed_digits(n, k).len() == k,
        all_digits(fixed_digits(n, k)),
        digits_val(fixed_digits(n, k)) == n,
    decreases k,
{
    if k > 0 {
        lemma_fundamental_div_mod(n as int, 10);
        assert(n / 10 < pow10((k - 1) as nat)) by (nonlinear_arith)
            requires
                n < pow10(k),
                pow10(k) == 10 * pow10((k - 1) as nat),
                n / 10 * 10 + n % 10 == n,
                0 <= n % 10 < 10,
        ;
        lemma_fixed_digits(n / 10, (k - 1) as nat);
        let s = fixed_digits(n, k);
        let p = fixed_digits(n / 10, (k - 1) as nat);
        assert(s.drop_last() == p);
    }
}

/// Ten to the `k`.
pub open spec fn pow10(k: nat) -> int
    decreases k,
{
    if k == 0 {
        1
    } else {
        10 * pow10((k - 1) as nat)
    }
}

/// `pow10` grows with its exponent.
pub proof fn lemma_pow10_le(j: nat, k: nat)
    requires
        j <= k,
    ensures
        0 < pow10(j) <= pow10(k),
    decreases k,
{
    if j == k {
        if k > 0 {
            lemma_pow10_le((k - 1) as nat, (k - 1) as nat);
        }
    } else {
        lemma_pow10_le(j, (k - 1) as nat);
    }
}

/// A digit string's value is nonnegative, and below `10^len`.
pub proof fn lemma_digits_val_bounds(s: Seq<u8>)
    requires
        all_digits(s),
    ensures
        0 <= digits_val(s) < pow10(s.len()),
    decreases s.len(),
{
    if s.len() > 0 {
        assert(all_digits(s.drop_last())) by {
            assert(forall|i: int|
                0 <= i < s.len() - 1 ==> s.drop_last()[i] == #[trigger] s[i]);
        }
        lemma_digits_val_bounds(s.drop_last());
        assert(digits_val(s) < pow10(s.len())) by (nonlinear_arith)
            requires
                digits_val(s) == digits_val(s.drop_last()) * 10 + digit_val(s.last()),
                0 <= digits_val(s.drop_last()) < pow10((s.len() - 1) as nat),
                digit_val(s.last()) < 10,
                pow10(s.len()) == 10 * pow10((s.len() - 1) as nat),
        ;
    }
}

/// A nonempty digit string without a leading zero is the canonical digit
/// string of its value.
pub proof fn lemma_digits_canonical(s: Seq<u8>)
    requires
        s.len() >= 1,
        all_digits(s),
        s.len() > 1 ==> s[0] != 48,
    ensures
        dec_digits(digits_val(s) as nat) == s,
    decreases s.len(),
{
    reveal_with_fuel(digits_val, 3);
    lemma_digits_val_bounds(s);
    let v = digits_val(s);
    if s.len() == 1 {
        assert(s.drop_last() =~= Seq::<u8>::empty());
        assert(v == digit_val(s[0]));
        assert(dec_digits(v as nat) =~= s);
    } else {
        let p = s.drop_last();
        assert(all_digits(p)) by {
            assert(forall|i: int| 0 <= i < s.len() - 1 ==> p[i] == #[trigger] s[i]);
        }
        assert(p[0] == s[0]);
        lemma_digits_canonical(p);
        lemma_digits_val_pos(p);
        let pv = digits_val(p);
        lemma_fundamental_div_mod_converse(v, 10, pv, digit_val(s.last()));
        assert(v >= 10) by (nonlinear_arith)
            requires
                v == pv * 10 + digit_val(s.last()),
                pv >= 1,
                digit_val(s.last()) >= 0,
        ;
        assert(dec_digits(v as nat) == dec_digits(pv as nat).push(digit_of(digit_val(s.last()))));
        assert(digit_of(digit_val(s.last())) == s.last());
        assert(dec_digits(v as nat) =~= s);
    }
}

/// A nonempty digit string whose first digit is not zero has a positive
/// value.
pub proof fn lemma_digits_val_pos(s: Seq<u8>)
    requires
        s.len() >= 1,
        all_digits(s),
        s[0] != 48,
    ensures
        digits_val(s) >= 1,
    decreases s.len(),
{
    reveal_with_fuel(digits_val, 3);
    if s.len() == 1 {
        assert(s.drop_last() =~= Seq::<u8>::empty());
        assert(digit_val(s[0]) >= 1);
    } else {
        let p = s.drop_last();
        assert(all_digits(p)) by {
            assert(forall|i: int| 0 <= i < s.len() - 1 ==> p[i] == #[trigger] s[i]);
        }
        assert(p[0] == s[0]);
        lemma_digits_val_pos(p);
        assert(digits_val(s) >= 1) by (nonlinear_arith)
            requires
                digits_val(s) == digits_val(p) * 10 + digit_val(s.last()),
                digits_val(p) >= 1,
                digit_val(s.last()) >= 0,
        ;
    }
}

/// A digit string of fixed length is the canonical fixed-width digit
/// string of its value.
pub proof fn lemma_fixed_digits_canonical(s: Seq<u8>)
    requires
        all_digits(s),
    ensures
        fixed_digits(digits_val(s) as nat, s.len()) == s,
    decreases s.len(),
{
    lemma_digits_val_bounds(s);
    if s.len() > 0 {
        let p = s.drop_last();
        assert(all_digits(p)) by {
            assert(forall|i: int| 0 <= i < s.len() - 1 ==> p[i] == #[trigger] s[i]);
        }
        lemma_fixed_digits_canonical(p);
        lemma_digits_val_bounds(p);
        let v = digits_val(s);
        lemma_fundamental_div_mod_converse(v, 10, digits_val(p), digit_val(s.last()));
        assert(fixed_digits(v as nat, s.len()) == fixed_digits((v / 10) as nat, (s.len() - 1) as nat)
            .push(digit_of((v % 10) as int)));
        assert(fixed_digits(v as nat, s.len()) =~= s);
    }
}

/// Append the canonical digits of `n` to `out`.
fn write_uint(out: &mut Vec<u8>, n: u64)
    requires
        n <= 0xffff_ffff,
    ensures
        final(out)@ == old(out)@ + dec_digits(n as nat),
    decreases n,
{
    if n < 10 {
        out.push(48 + (n as u8));
        assert(out@ =~= old(out)@ + dec_digits(n as nat));
    } else {
        proof {
            lemma_fundamental_div_mod(n as int, 10);
        }
        write_uint(out, n / 10);
        out.push(48 + ((n % 10) as u8));
        assert(out@ =~= old(out)@ + dec_digits(n as nat));
    }
}

/// Append exactly `k` digits of `n`, zero padded, to `out`.
fn write_fixed(out: &mut Vec<u8>, n: u64, k: u8)
    requires
        n <= 0xffff_ffff,
    ensures
        final(out)@ == old(out)@ + fixed_digits(n as nat, k as nat),
    decreases k,
{
    if k > 0 {
        proof {
            lemma_fundamental_div_mod(n as int, 10);
        }
        write_fixed(out, n / 10, k - 1);
        out.push(48 + ((n % 10) as u8));
        assert(out@ =~= old(out)@ + fixed_digits(n as nat, k as nat));
    } else {
        assert(out@ =~= old(out)@ + fixed_digits(n as nat, 0));
    }
}

/// Append the canonical bytes of coordinate `r` to `out`.
fn write_num(out: &mut Vec<u8>, r: i64)
    requires
        coord_ok(r as int),
    ensures
        final(out)@ == old(out)@ + num_repr(r as int),
{
    let m: u64 = if r >= 0 {
        r as u64
    } else {
        out.push(45);
        (-r) as u64
    };
    let q = m / 1_000_000;
    let f = m % 1_000_000;
    proof {
        lemma_fundamental_div_mod(m as int, 1_000_000);
    }
    write_uint(out, q);
    out.push(46);
    write_fixed(out, f, 6);
    proof {
        reveal_with_fuel(pow10, 7);
        assert(out@ =~= old(out)@ + num_repr(r as int));
    }
}

/// Splitting a known byte range: when `b` holds `u + v` at `p`, it holds
/// `u` at `p` and `v` right after it.
pub proof fn lemma_prefix_split(b: Seq<u8>, p: int, u: Seq<u8>, v: Seq<u8>)
    requires
        0 <= p,
        p + u.len() + v.len() <= b.len(),
        b.subrange(p, p + u.len() + v.len()) == u + v,
    ensures
        b.subrange(p, p + u.len()) == u,
        b.subrange(p + u.len(), p + u.len() + v.len()) == v,
{
    assert(b.subrange(p, p + u.len()) =~= u) by {
        assert(forall|i: int|
            0 <= i < u.len() + v.len() ==> b.subrange(p, p + u.len() + v.len())[i] == (u + v)[i]);
    }
    assert forall|i: int| 0 <= i < v.len() implies b.subrange(
        p + u.len(),
        p + u.len() + v.len(),
    )[i] == v[i] by {
        assert(b[p + u.len() + i] == b.subrange(p, p + u.len() + v.len())[u.len() + i]);
        assert((u + v)[u.len() + i] == v[i]);
    }
    assert(b.subrange(p + u.len(), p + u.len() + v.len()) =~= v);
}

/// Assembling a byte range: when `b` holds `u` at `p` and `v` right
/// after it, it holds `u + v` at `p`.
pub proof fn lemma_concat_assemble(b: Seq<u8>, p: int, u: Seq<u8>, v: Seq<u8>)
    requires
        0 <= p,
        p + u.len() + v.len() <= b.len(),
        b.subrange(p, p + u.len()) == u,
        b.subrange(p + u.len(), p + u.len() + v.len()) == v,
    ensures
        b.subrange(p, p + u.len() + v.len()) == u + v,
{
    assert(b.subrange(p, p + u.len() + v.len()) =~= u + v);
}

/// The value of a digit-string prefix never exceeds the whole string's
/// value.
pub proof fn lemma_digits_val_take_le(s: Seq<u8>, k: int)
    requires
        all_digits(s),
        0 <= k <= s.len(),
    ensures
        0 <= digits_val(s.take(k)) <= digits_val(s),
    decreases s.len() - k,
{
    assert(all_digits(s.take(k))) by {
        assert(forall|i: int| 0 <= i < k ==> s.take(k)[i] == #[trigger] s[i]);
    }
    lemma_digits_val_bounds(s.take(k));
    lemma_digits_val_bounds(s);
    if k == s.len() {
        assert(s.take(k) =~= s);
    } else {
        lemma_digits_val_take_le(s, k + 1);
        assert(s.take(k + 1).drop_last() =~= s.take(k));
        assert(s.take(k + 1).last() == s[k]);
        assert(digits_val(s.take(k + 1)) == digits_val(s.take(k)) * 10 + digit_val(s[k]));
    }
}

/// True when position `i` of `b` holds a decimal digit.
fn digit_at(b: &Vec<u8>, i: usize) -> (r: bool)
    ensures
        r == (i < b@.len() && is_digit(b@[i as int])),
{
    i < b.len() && 48 <= b[i] && b[i] <= 57
}

/// Parse a canonical unsigned integer part at `start`: a maximal run of
/// digits, rejected when it is empty, has a leading zero, or exceeds the
/// largest integer part a coordinate can carry. On success the consumed
/// bytes are exactly the canonical digits of the value, and the next
/// byte (if any) is not a digit; conversely, canonical digits of any
/// admissible value followed by a non-digit are always accepted.
fn parse_uint(b: &Vec<u8>, start: usize) -> (r: Option<(i64, usize)>)
    requires
        start <= b@.len(),
    ensures
        match r {
            Option::Some(p) => {
                &&& start < p.1 <= b@.len()
                &&& 0 <= p.0 <= 4_000_000
                &&& b@.subrange(start as int, p.1 as int) == dec_digits(p.0 as nat)
                &&& p.1 == b@.len() || !is_digit(b@[p.1 as int])
            },
            Option::None => true,
        },
        forall|n: nat|
            n <= 4_000_000 && start + (#[trigger] dec_digits(n)).len() <= b@.len()
                && b@.subrange(start as int, start + dec_digits(n).len()) == dec_digits(n) && (
            start + dec_digits(n).len() == b@.len() || !is_digit(
                b@[start + dec_digits(n).len()],
            )) ==> r == Option::Some((n as i64, (start + dec_digits(n).len()) as usize)),
{
    let ghost bs = b@;
    let blen = b.len();
    let mut end = start;
    let mut acc: i64 = 0;
    while digit_at(b, end)
        invariant
            start <= end <= bs.len(),
            bs == b@,
            blen == bs.len(),
            forall|i: int| start <= i < end ==> is_digit(#[trigger] bs[i]),
            acc == digits_val(bs.subrange(start as int, end as int)),
            0 <= acc <= 4_000_000,
            forall|n: nat|
                n <= 4_000_000 && start + (#[trigger] dec_digits(n)).len() <= bs.len()
                    && bs.subrange(start as int, start + dec_digits(n).len()) == dec_digits(n) && (
                start + dec_digits(n).len() == bs.len() || !is_digit(
                    bs[start + dec_digits(n).len()],
                )) ==> end <= start + dec_digits(n).len(),
        decreases bs.len() - end,
    {
        let d = b[end] - 48;
        let ghost pre = bs.subrange(start as int, end as int);
        let ghost cur = bs.subrange(start as int, end as int + 1);
        proof {
            assert(cur.drop_last() =~= pre);
            assert(cur.last() == bs[end as int]);
            assert(all_digits(cur)) by {
                assert(forall|i: int| 0 <= i < cur.len() ==> cur[i] == #[trigger] bs[start + i]);
            }
        }
        let acc2 = acc * 10 + (d as i64);
        proof {
            assert(acc2 == digits_val(cur));
        }
        if acc2 > 4_000_000 {
            proof {
                assert forall|n: nat|
                    n <= 4_000_000 && start + (#[trigger] dec_digits(n)).len() <= bs.len()
                        && bs.subrange(start as int, start + dec_digits(n).len()) == dec_digits(n)
                        && (start + dec_digits(n).len() == bs.len() || !is_digit(
                        bs[start + dec_digits(n).len()],
                    )) implies false by {
                    lemma_dec_digits(n);
                    let dd = dec_digits(n);
                    // the run cannot have left the digits of n: its byte
                    // after the digits is not a digit
                    assert(end < start + dd.len());
                    assert(cur =~= dd.take(end + 1 - start));
                    lemma_digits_val_take_le(dd, end + 1 - start);
                }
            }
            return Option::None;
        }
        acc = acc2;
        assert(end < blen);
        end = end + 1;
        proof {
            assert forall|n: nat|
                n <= 4_000_000 && start + (#[trigger] dec_digits(n)).len() <= bs.len()
                    && bs.subrange(start as int, start + dec_digits(n).len()) == dec_digits(n) && (
                start + dec_digits(n).len() == bs.len() || !is_digit(
                    bs[start + dec_digits(n).len()],
                )) implies end <= start + dec_digits(n).len() by {
                lemma_dec_digits(n);
                let dd = dec_digits(n);
                if end > start + dd.len() {
                    assert(!is_digit(bs[(end - 1) as int]));
                }
            }
        }
    }
    if end == start {
        proof {
            assert forall|n: nat|
                n <= 4_000_000 && start + (#[trigger] dec_digits(n)).len() <= bs.len()
                    && bs.subrange(start as int, start + dec_digits(n).len()) == dec_digits(n) && (
                start + dec_digits(n).len() == bs.len() || !is_digit(
                    bs[start + dec_digits(n).len()],
                )) implies false by {
                lemma_dec_digits(n);
                assert(bs[start as int] == dec_digits(n)[0]);
            }
        }
        return Option::None;
    }
    let ghost s = bs.subrange(start as int, end as int);
    proof {
        assert(all_digits(s)) by {
            assert(forall|i: int| 0 <= i < s.len() ==> s[i] == #[trigger] bs[start + i]);
        }
    }
    if end > start + 1 && b[start] == 48 {
        proof {
            assert forall|n: nat|
                n <= 4_000_000 && start + (#[trigger] dec_digits(n)).len() <= bs.len()
                    && bs.subrange(start as int, start + dec_digits(n).len()) == dec_digits(n) && (
                start + dec_digits(n).len() == bs.len() || !is_digit(
                    bs[start + dec_digits(n).len()],
                )) implies false by {
                lemma_dec_digits(n);
                let dd = dec_digits(n);
                assert(end <= start + dd.len());
                if end < start + dd.len() {
                    assert(bs[end as int] == dd[end - start]);
                    assert(is_digit(bs[end as int]));
                }
                assert(end == start + dd.len());
                assert(dd.len() > 1);
                assert(dd[0] == bs[start as int]);
            }
        }
        return Option::None;
    }
    proof {
        lemma_digits_canonical(s);
        assert forall|n: nat|
            n <= 4_000_000 && start + (#[trigger] dec_digits(n)).len() <= bs.len()
                && bs.subrange(start as int, start + dec_digits(n).len()) == dec_digits(n) && (
            start + dec_digits(n).len() == bs.len() || !is_digit(
                bs[start + dec_digits(n).len()],
            )) implies Option::Some((acc, end)) == Option::<(i64, usize)>::Some(
            (n as i64, (start + dec_digits(n).len()) as usize),
        ) by {
            lemma_dec_digits(n);
            let dd = dec_digits(n);
            assert(end <= start + dd.len());
            if end < start + dd.len() {
                assert(bs[end as int] == dd[end - start]);
                assert(is_digit(bs[end as int]));
            }
            assert(end == start + dd.len());
            assert(s =~= dd);
        }
    }
    Option::Some((acc, end))
}

/// Parse exactly six fractional digits at `start`. On success the six
/// consumed bytes are the fixed-width digits of the value; conversely,
/// six digits of any value under a million are always accepted.
fn parse_frac6(b: &Vec<u8>, start: usize) -> (r: Option<(i64, usize)>)
    requires
        start <= b@.len(),
    ensures
        match r {
            Option::Some(p) => {
                &&& p.1 == start + 6 <= b@.len()
                &&& 0 <= p.0 < 1_000_000
                &&& b@.subrange(start as int, p.1 as int) == fixed_digits(p.0 as nat, 6)
            },
            Option::None => true,
        },
        forall|f: nat|
            f < 1_000_000 && start + 6 <= b@.len() && b@.subrange(start as int, start + 6)
                == fixed_digits(f, 6) ==> r == Option::Some((f as i64, (start + 6) as usize)),
{
    proof {
        reveal_with_fuel(pow10, 7);
    }
    let blen = b.len();
    if blen - start < 6 {
        return Option::None;
    }
    let mut acc: i64 = 0;
    let mut i: usize = 0;
    while i < 6
        invariant
            0 <= i <= 6,
            start + 6 <= blen,
            blen == b@.len(),
            forall|j: int| start <= j < start + i ==> is_digit(#[trigger] b@[j]),
            acc == digits_val(b@.subrange(start as int, start + i)),
            0 <= acc < 1_000_000,
            pow10(6) == 1_000_000,
        decreases 6 - i,
    {
        let c = b[start + i];
        if c < 48 || c > 57 {
            proof {
                assert forall|f: nat|
                    f < 1_000_000 && start + 6 <= b@.len() && b@.subrange(start as int, start + 6)
                        == fixed_digits(f, 6) implies false by {
                    lemma_fixed_digits(f, 6);
                    assert(b@[start + i] == fixed_digits(f, 6)[i as int]);
                }
            }
            return Option::None;
        }
        let ghost pre = b@.subrange(start as int, start + i);
        let ghost cur = b@.subrange(start as int, start + i + 1);
        proof {
            assert(cur.drop_last() =~= pre);
            assert(cur.last() == b@[start + i]);
            assert(all_digits(cur)) by {
                assert(forall|j: int| 0 <= j < cur.len() ==> cur[j] == #[trigger] b@[start + j]);
            }
            lemma_digits_val_bounds(cur);
            lemma_pow10_le((i + 1) as nat, 6);
            reveal_with_fuel(pow10, 7);
        }
        acc = acc * 10 + ((c - 48) as i64);
        i = i + 1;
    }
    let ghost s = b@.subrange(start as int, start + 6);
    proof {
        assert(all_digits(s)) by {
            assert(forall|j: int| 0 <= j < s.len() ==> s[j] == #[trigger] b@[start + j]);
        }
        lemma_fixed_digits_canonical(s);
        assert forall|f: nat|
            f < 1_000_000 && start + 6 <= b@.len() && b@.subrange(start as int, start + 6)
                == fixed_digits(f, 6) implies Option::Some((acc, (start + 6) as usize))
            == Option::<(i64, usize)>::Some((f as i64, (start + 6) as usize)) by {
            lemma_fixed_digits(f, 6);
        }
    }
    Option::Some((acc, start + 6))
}

/// Parse a canonical coordinate at `start`: optional minus sign, the
/// integer part, a dot, six fractional digits; rejected when the value
/// would exceed the stored-coordinate range or a minus sign carries a
/// zero value. On success the consumed bytes are exactly `num_repr` of
/// the value; conversely, `num_repr` of any storable coordinate is
/// always accepted.
fn parse_num(b: &Vec<u8>, start: usize) -> (r: Option<(i64, usize)>)
    requires
        start <= b@.len(),
    ensures
        match r {
            Option::Some(p) => {
                &&& coord_ok(p.0 as int)
                &&& start < p.1 <= b@.len()
                &&& b@.subrange(start as int, p.1 as int) == num_repr(p.0 as int)
            },
            Option::None => true,
        },
        forall|v: int|
            coord_ok(v) && start + (#[trigger] num_repr(v)).len() <= b@.len() && b@.subrange(
                start as int,
                start + num_repr(v).len(),
            ) == num_repr(v) ==> r == Option::Some(
                (v as i64, (start + num_repr(v).len()) as usize),
            ),
{
    let ghost bs = b@;
    let neg = start < b.len() && b[start] == 45;
    let ustart = if neg {
        start + 1
    } else {
        start
    };
    if ustart > b.len() {
        return Option::None;
    }
    let (q, e1) = match parse_uint(b, ustart) {
        Option::Some(p) => p,
        Option::None => {
            proof {
                assert forall|v: int|
                    coord_ok(v) && start + (#[trigger] num_repr(v)).len() <= bs.len()
                        && bs.subrange(start as int, start + num_repr(v).len()) == num_repr(v)
                    implies false by {
                    lemma_num_repr_shape(v, bs, start as int, ustart as int, neg);
                }
            }
            return Option::None;
        },
    };
    if !(e1 < b.len() && b[e1] == 46) {
        proof {
            assert forall|v: int|
                coord_ok(v) && start + (#[trigger] num_repr(v)).len() <= bs.len() && bs.subrange(
                    start as int,
                    start + num_repr(v).len(),
                ) == num_repr(v) implies false by {
                lemma_num_repr_shape(v, bs, start as int, ustart as int, neg);
            }
        }
        return Option::None;
    }
    let (f, e2) = match parse_frac6(b, e1 + 1) {
        Option::Some(p) => p,
        Option::None => {
            proof {
                assert forall|v: int|
                    coord_ok(v) && start + (#[trigger] num_repr(v)).len() <= bs.len()
                        && bs.subrange(start as int, start + num_repr(v).len()) == num_repr(v)
                    implies false by {
                    lemma_num_repr_shape(v, bs, start as int, ustart as int, neg);
                }
            }
            return Option::None;
        },
    };
    let total = q * 1_000_000 + f;
    if total > COORD_LIMIT || (neg && total == 0) {
        proof {
            assert forall|v: int|
                coord_ok(v) && start + (#[trigger] num_repr(v)).len() <= bs.len() && bs.subrange(
                    start as int,
                    start + num_repr(v).len(),
                ) == num_repr(v) implies false by {
                lemma_num_repr_shape(v, bs, start as int, ustart as int, neg);
                lemma_fundamental_div_mod(if v >= 0 { v } else { -v }, UNIT as int);
            }
        }
        return Option::None;
    }
    let value = if neg {
        -total
    } else {
        total
    };
    proof {
        lemma_fundamental_div_mod_converse(
            if value >= 0 { value as int } else { -(value as int) },
            UNIT as int,
            q as int,
            f as int,
        );
        let sign: Seq<u8> = if neg { seq![45u8] } else { Seq::<u8>::empty() };
        if neg {
            assert(bs.subrange(start as int, start + 1) =~= sign);
        } else {
            assert(bs.subrange(start as int, start as int) =~= sign);
        }
        lemma_concat_assemble(bs, start as int, sign, dec_digits(q as nat));
        assert(bs.subrange(e1 as int, e1 + 1) =~= seq![46u8]);
        lemma_concat_assemble(bs, start as int, sign + dec_digits(q as nat), seq![46u8]);
        lemma_concat_assemble(
            bs,
            start as int,
            sign + dec_digits(q as nat) + seq![46u8],
            fixed_digits(f as nat, 6),
        );
        assert(bs.subrange(start as int, e2 as int) == num_repr(value as int));
        assert forall|v: int|
            coord_ok(v) && start + (#[trigger] num_repr(v)).len() <= bs.len() && bs.subrange(
                start as int,
                start + num_repr(v).len(),
            ) == num_repr(v) implies Option::Some((value, e2)) == Option::<(i64, usize)>::Some(
            (v as i64, (start + num_repr(v).len()) as usize),
        ) by {
            lemma_num_repr_shape(v, bs, start as int, ustart as int, neg);
            lemma_fundamental_div_mod(if v >= 0 { v } else { -v }, UNIT as int);
        }
    }
    Option::Some((value, e2))
}

/// When `num_repr(v)` sits in `b` at `start`, its pieces sit at their
/// offsets: the sign matches `neg`, the integer digits of `|v| / UNIT`
/// start at `ustart` and are followed by a dot, and the six fractional
/// digits of `|v| % UNIT` follow the dot.
proof fn lemma_num_repr_shape(v: int, b: Seq<u8>, start: int, ustart: int, neg: bool)
    requires
        coord_ok(v),
        0 <= start <= b.len(),
        start + num_repr(v).len() <= b.len(),
        b.subrange(start, start + num_repr(v).len()) == num_repr(v),
        neg == (start < b.len() && b[start] == 45),
        ustart == if neg { start + 1 } else { start },
    ensures
        neg == (v < 0),
        ({
            let m = if v >= 0 { v } else { -v };
            let dd = dec_digits((m / (UNIT as int)) as nat);
            &&& ustart + dd.len() <= b.len()
            &&& b.subrange(ustart, ustart + dd.len()) == dd
            &&& ustart + dd.len() < b.len()
            &&& b[ustart + dd.len()] == 46
            &&& !is_digit(b[ustart + dd.len()])
            &&& ustart + dd.len() + 1 + 6 <= b.len()
            &&& b.subrange(ustart + dd.len() + 1, ustart + dd.len() + 1 + 6) == fixed_digits(
                (m % (UNIT as int)) as nat,
                6,
            )
            &&& (m % (UNIT as int)) < 1_000_000
            &&& (m / (UNIT as int)) <= 4_000_000
            &&& num_repr(v).len() == (if v < 0 { 1int } else { 0int } ) + dd.len() + 7
        }),
{
    let m = if v >= 0 { v } else { -v };
    let sign: Seq<u8> = if v < 0 { seq![45u8] } else { Seq::empty() };
    let dd = dec_digits((m / (UNIT as int)) as nat);
    let ff = fixed_digits((m % (UNIT as int)) as nat, 6);
    lemma_dec_digits((m / (UNIT as int)) as nat);
    lemma_fundamental_div_mod(m, UNIT as int);
    reveal_with_fuel(pow10, 7);
    lemma_div_is_ordered(m, COORD_LIMIT as int, UNIT as int);
    lemma_fixed_digits((m % (UNIT as int)) as nat, 6);
    lemma_prefix_split(b, start, sign + dd + seq![46u8], ff);
    lemma_prefix_split(b, start, sign + dd, seq![46u8]);
    lemma_prefix_split(b, start, sign, dd);
    if v < 0 {
        assert(b.subrange(start, start + 1) == sign);
        assert(b[start] == sign[0]);
        assert(neg);
    } else {
        assert(b.subrange(start, start + dd.len()) == dd);
        assert(b[start] == dd[0]);
        assert(is_digit(dd[0]));
        assert(!neg);
    }
    assert(ustart == start + sign.len());
    assert(b.subrange(ustart, ustart + dd.len()) == dd);
    assert(b.subrange(ustart + dd.len(), ustart + dd.len() + 1) == seq![46u8]);
    assert(b[ustart + dd.len()] == seq![46u8][0]);
    assert(b.subrange(ustart + dd.len() + 1, ustart + dd.len() + 1 + 6) == ff);
}

/// Escaped form of one name byte: a quote or backslash gets a backslash
/// before it, any other byte stands for itself.
pub open spec fn esc_one(c: u8) -> Seq<u8> {
    if c == 34 || c == 92 {
        seq![92u8, c]
    } else {
        seq![c]
    }
}

/// Escaped form of a whole name.
pub open spec fn esc_bytes(s: Seq<u8>) -> Seq<u8>
    decreases s.len(),
{
    if s.len() == 0 {
        Seq::empty()
    } else {
        esc_one(s[0]) + esc_bytes(s.skip(1))
    }
}

/// Escaping distributes over concatenation.
pub proof fn lemma_esc_bytes_cat(s: Seq<u8>, t: Seq<u8>)
    ensures
        esc_bytes(s + t) == esc_bytes(s) + esc_bytes(t),
    decreases s.len(),
{
    if s.len() == 0 {
        assert(s + t =~= t);
        assert(esc_bytes(s) + esc_bytes(t) =~= esc_bytes(t));
    } else {
        assert((s + t)[0] == s[0]);
        assert((s + t).skip(1) =~= s.skip(1) + t);
        lemma_esc_bytes_cat(s.skip(1), t);
        assert(esc_one(s[0]) + (esc_bytes(s.skip(1)) + esc_bytes(t)) =~= (esc_one(s[0])
            + esc_bytes(s.skip(1))) + esc_bytes(t));
    }
}

/// Escaping one more byte appends its escaped form.
pub proof fn lemma_esc_bytes_push(s: Seq<u8>, c: u8)
    ensures
        esc_bytes(s.push(c)) == esc_bytes(s) + esc_one(c),
{
    reveal_with_fuel(esc_bytes, 3);
    assert(s.push(c) =~= s + seq![c]);
    lemma_esc_bytes_cat(s, seq![c]);
    assert(seq![c].skip(1) =~= Seq::<u8>::empty());
    assert(esc_bytes(seq![c].skip(1)) =~= Seq::<u8>::empty());
    assert(esc_bytes(seq![c]) =~= esc_one(c));
}

/// Where the escaped bytes of `ns` sit in `b` at `start`, and `k` bytes
/// are already decoded, the escaped form of byte `k` sits at `j`.
proof fn lemma_esc_at(b: Seq<u8>, start: int, ns: Seq<u8>, k: int, j: int)
    requires
        0 <= start,
        0 <= k < ns.len(),
        start + esc_bytes(ns).len() <= b.len(),
        b.subrange(start, start + esc_bytes(ns).len()) == esc_bytes(ns),
        j == start + esc_bytes(ns.take(k)).len(),
    ensures
        j + esc_one(ns[k]).len() <= start + esc_bytes(ns).len(),
        b.subrange(j, j + esc_one(ns[k]).len()) == esc_one(ns[k]),
        esc_bytes(ns.take(k + 1)).len() == j - start + esc_one(ns[k]).len(),
        ns[k] == 34 || ns[k] == 92 ==> b[j] == 92 && b[j + 1] == ns[k],
        !(ns[k] == 34 || ns[k] == 92) ==> b[j] == ns[k],
{
    assert(ns =~= ns.take(k) + ns.skip(k));
    lemma_esc_bytes_cat(ns.take(k), ns.skip(k));
    assert(esc_bytes(ns) == esc_bytes(ns.take(k)) + esc_bytes(ns.skip(k)));
    lemma_prefix_split(b, start, esc_bytes(ns.take(k)), esc_bytes(ns.skip(k)));
    assert(ns.skip(k)[0] == ns[k]);
    assert(ns.skip(k).skip(1) =~= ns.skip(k + 1));
    assert(esc_bytes(ns.skip(k)) == esc_one(ns[k]) + esc_bytes(ns.skip(k + 1)));
    lemma_prefix_split(b, j, esc_one(ns[k]), esc_bytes(ns.skip(k + 1)));
    assert(ns.take(k + 1) =~= ns.take(k).push(ns[k]));
    lemma_esc_bytes_push(ns.take(k), ns[k]);
    if ns[k] == 34 || ns[k] == 92 {
        assert(b[j] == esc_one(ns[k])[0]);
        assert(b[j + 1] == esc_one(ns[k])[1]);
    } else {
        assert(b[j] == esc_one(ns[k])[0]);
    }
}

/// Append the escaped bytes of `name` to `out`.
fn write_escaped(out: &mut Vec<u8>, name: &Vec<u8>)
    ensures
        final(out)@ == old(out)@ + esc_bytes(name@),
{
    let mut i: usize = 0;
    while i < name.len()
        invariant
            0 <= i <= name@.len(),
            out@ == old(out)@ + esc_bytes(name@.take(i as int)),
        decreases name@.len() - i,
    {
        let c = name[i];
        if c == 34 || c == 92 {
            out.push(92);
        }
        out.push(c);
        proof {
            assert(name@.take(i + 1) =~= name@.take(i as int).push(name@[i as int]));
            lemma_esc_bytes_push(name@.take(i as int), name@[i as int]);
            assert(out@ =~= old(out)@ + esc_bytes(name@.take(i + 1)));
        }
        i = i + 1;
    }
    proof {
        assert(name@.take(name@.len() as int) =~= name@);
    }
}

/// Parse an escaped name at `start`, up to and including its closing
/// quote. On success the consumed bytes are exactly the escaped name
/// followed by the quote; conversely, any escaped name followed by a
/// quote is accepted.
fn parse_string(b: &Vec<u8>, start: usize) -> (r: Option<(Vec<u8>, usize)>)
    requires
        start <= b@.len(),
    ensures
        match r {
            Option::Some(p) => {
                &&& start < p.1 <= b@.len()
                &&& b@.subrange(start as int, p.1 as int) == esc_bytes(p.0@) + seq![34u8]
            },
            Option::None => true,
        },
        match r {
            Option::Some(p) => forall|ns: Seq<u8>|
                start + (#[trigger] esc_bytes(ns)).len() + 1 <= b@.len() && b@.subrange(
                    start as int,
                    start + esc_bytes(ns).len(),
                ) == esc_bytes(ns) && b@[start + esc_bytes(ns).len()] == 34 ==> p.0@ == ns && p.1
                    == start + esc_bytes(ns).len() + 1,
            Option::None => forall|ns: Seq<u8>|
                !(start + (#[trigger] esc_bytes(ns)).len() + 1 <= b@.len() && b@.subrange(
                    start as int,
                    start + esc_bytes(ns).len(),
                ) == esc_bytes(ns) && b@[start + esc_bytes(ns).len()] == 34),
        },
{
    let ghost bs = b@;
    let blen = b.len();
    let mut out: Vec<u8> = Vec::new();
    let mut j = start;
    loop
        invariant
            start <= j <= blen,
            blen == bs.len(),
            bs == b@,
            bs.subrange(start as int, j as int) == esc_bytes(out@),
            forall|ns: Seq<u8>|
                start + (#[trigger] esc_bytes(ns)).len() + 1 <= bs.len() && bs.subrange(
                    start as int,
                    start + esc_bytes(ns).len(),
                ) == esc_bytes(ns) && bs[start + esc_bytes(ns).len()] == 34 ==> out@.len()
                    <= ns.len() && ns.take(out@.len() as int) == out@,
        decreases blen - j,
    {
        let ghost k = out@.len() as int;
        proof {
            assert(esc_bytes(out@).len() == j - start);
        }
        if j >= blen {
            proof {
                assert forall|ns: Seq<u8>|
                    !(start + (#[trigger] esc_bytes(ns)).len() + 1 <= bs.len() && bs.subrange(
                        start as int,
                        start + esc_bytes(ns).len(),
                    ) == esc_bytes(ns) && bs[start + esc_bytes(ns).len()] == 34) by {
                    if start + esc_bytes(ns).len() + 1 <= bs.len() && bs.subrange(
                        start as int,
                        start + esc_bytes(ns).len(),
                    ) == esc_bytes(ns) && bs[start + esc_bytes(ns).len()] == 34 {
                        assert(ns.take(k) == out@);
                        if k < ns.len() {
                            lemma_esc_at(bs, start as int, ns, k, j as int);
                        } else {
                            assert(ns.take(k) =~= ns);
                            assert(esc_bytes(ns).len() == j - start);
                        }
                    }
                }
            }
            return Option::None;
        }
        let c = b[j];
        if c == 34 {
            proof {
                assert(bs.subrange(j as int, j + 1) =~= seq![34u8]);
                lemma_concat_assemble(bs, start as int, esc_bytes(out@), seq![34u8]);
                assert forall|ns: Seq<u8>|
                    start + (#[trigger] esc_bytes(ns)).len() + 1 <= bs.len() && bs.subrange(
                        start as int,
                        start + esc_bytes(ns).len(),
                    ) == esc_bytes(ns) && bs[start + esc_bytes(ns).len()] == 34 implies out@ == ns
                    && j + 1 == start + esc_bytes(ns).len() + 1 by {
                    assert(ns.take(k) == out@);
                    if k < ns.len() {
                        lemma_esc_at(bs, start as int, ns, k, j as int);
                        assert(false);
                    } else {
                        assert(ns.take(k) =~= ns);
                    }
                }
            }
            return Option::Some((out, j + 1));
        } else if c == 92 {
            if j + 1 >= blen {
                proof {
                    assert forall|ns: Seq<u8>|
                        !(start + (#[trigger] esc_bytes(ns)).len() + 1 <= bs.len() && bs.subrange(
                            start as int,
                            start + esc_bytes(ns).len(),
                        ) == esc_bytes(ns) && bs[start + esc_bytes(ns).len()] == 34) by {
                        if start + esc_bytes(ns).len() + 1 <= bs.len() && bs.subrange(
                            start as int,
                            start + esc_bytes(ns).len(),
                        ) == esc_bytes(ns) && bs[start + esc_bytes(ns).len()] == 34 {
                            assert(ns.take(k) == out@);
                            if k < ns.len() {
                                lemma_esc_at(bs, start as int, ns, k, j as int);
                            } else {
                                assert(ns.take(k) =~= ns);
                            }
                        }
                    }
                }
                return Option::None;
            }
            let c2 = b[j + 1];
            if c2 == 34 || c2 == 92 {
                proof {
                    lemma_esc_bytes_push(out@, c2);
                    assert(bs.subrange(j as int, j + 2) =~= seq![92u8, c2]);
                    lemma_concat_assemble(bs, start as int, esc_bytes(out@), seq![92u8, c2]);
                    assert forall|ns: Seq<u8>|
                        start + (#[trigger] esc_bytes(ns)).len() + 1 <= bs.len() && bs.subrange(
                            start as int,
                            start + esc_bytes(ns).len(),
                        ) == esc_bytes(ns) && bs[start + esc_bytes(ns).len()] == 34 implies out@.len()
                        + 1 <= ns.len() && ns.take(k + 1) == out@.push(c2) by {
                        assert(ns.take(k) == out@);
                        if k < ns.len() {
                            lemma_esc_at(bs, start as int, ns, k, j as int);
                            assert(ns.take(k + 1) =~= ns.take(k).push(ns[k]));
                        } else {
                            assert(ns.take(k) =~= ns);
                        }
                    }
                }
                out.push(c2);
                j = j + 2;
            } else {
                proof {
                    assert forall|ns: Seq<u8>|
                        !(start + (#[trigger] esc_bytes(ns)).len() + 1 <= bs.len() && bs.subrange(
                            start as int,
                            start + esc_bytes(ns).len(),
                        ) == esc_bytes(ns) && bs[start + esc_bytes(ns).len()] == 34) by {
                        if start + esc_bytes(ns).len() + 1 <= bs.len() && bs.subrange(
                            start as int,
                            start + esc_bytes(ns).len(),
                        ) == esc_bytes(ns) && bs[start + esc_bytes(ns).len()] == 34 {
                            assert(ns.take(k) == out@);
                            if k < ns.len() {
                                lemma_esc_at(bs, start as int, ns, k, j as int);
                            } else {
                                assert(ns.take(k) =~= ns);
                            }
                        }
                    }
                }
                return Option::None;
            }
        } else {
            proof {
                lemma_esc_bytes_push(out@, c);
                assert(bs.subrange(j as int, j + 1) =~= seq![c]);
                lemma_concat_assemble(bs, start as int, esc_bytes(out@), seq![c]);
                assert forall|ns: Seq<u8>|
                    start + (#[trigger] esc_bytes(ns)).len() + 1 <= bs.len() && bs.subrange(
                        start as int,
                        start + esc_bytes(ns).len(),
                    ) == esc_bytes(ns) && bs[start + esc_bytes(ns).len()] == 34 implies out@.len()
                    + 1 <= ns.len() && ns.take(k + 1) == out@.push(c) by {
                    assert(ns.take(k) == out@);
                    if k < ns.len() {
                        lemma_esc_at(bs, start as int, ns, k, j as int);
                        assert(ns.take(k + 1) =~= ns.take(k).push(ns[k]));
                    } else {
                        assert(ns.take(k) =~= ns);
                    }
                }
            }
            out.push(c);
            j = j + 1;
        }
    }
}

/// The opening key of a record: `{"x1":`.
pub open spec fn key_x1() -> Seq<u8> {
    seq![123u8, 34u8, 120u8, 49u8, 34u8, 58u8]
}

/// The second key: `,"y1":`.
pub open spec fn key_y1() -> Seq<u8> {
    seq![44u8, 34u8, 121u8, 49u8, 34u8, 58u8]
}

/// The third key: `,"x2":`.
pub open spec fn key_x2() -> Seq<u8> {
    seq![44u8, 34u8, 120u8, 50u8, 34u8, 58u8]
}

/// The fourth key: `,"y2":`.
pub open spec fn key_y2() -> Seq<u8> {
    seq![44u8, 34u8, 121u8, 50u8, 34u8, 58u8]
}

/// The name key with its opening quote: `,"name":"`.
pub open spec fn key_name() -> Seq<u8> {
    seq![44u8, 34u8, 110u8, 97u8, 109u8, 101u8, 34u8, 58u8, 34u8]
}

/// Canonical bytes of one record: the four coordinates and the escaped
/// name under fixed keys, in fixed order.
pub open spec fn record_repr(c: JsonConfigV) -> Seq<u8> {
    key_x1() + num_repr(c.x1) + key_y1() + num_repr(c.y1) + key_x2() + num_repr(c.x2) + key_y2()
        + num_repr(c.y2) + key_name() + esc_bytes(c.name) + seq![34u8, 125u8]
}

/// The coordinate half of a record's bytes: the four numbers under
/// their keys.
pub open spec fn record_nums_repr(x1: int, y1: int, x2: int, y2: int) -> Seq<u8> {
    key_x1() + num_repr(x1) + key_y1() + num_repr(y1) + key_x2() + num_repr(x2) + key_y2()
        + num_repr(y2)
}

/// `record_repr` is the coordinate half followed by the name under its
/// key and the closing brace.
pub proof fn lemma_record_repr_split(c: JsonConfigV)
    ensures
        record_repr(c) == record_nums_repr(c.x1, c.y1, c.x2, c.y2) + key_name() + esc_bytes(c.name)
            + seq![34u8, 125u8],
{
    assert(record_repr(c) =~= record_nums_repr(c.x1, c.y1, c.x2, c.y2) + key_name() + esc_bytes(
        c.name,
    ) + seq![34u8, 125u8]);
}

/// Append the four coordinates of `c`, under their keys, to `out`.
#[verifier::rlimit(100)]
fn write_record_nums(out: &mut Vec<u8>, c: &JsonConfig)
    requires
        c@.wf(),
    ensures
        final(out)@ == old(out)@ + record_nums_repr(c@.x1, c@.y1, c@.x2, c@.y2),
{
    let ghost o0 = out@;
    out.push(123);
    out.push(34);
    out.push(120);
    out.push(49);
    out.push(34);
    out.push(58);
    proof {
        assert(out@ =~= o0 + key_x1());
    }
    write_num(out, c.x1);
    out.push(44);
    out.push(34);
    out.push(121);
    out.push(49);
    out.push(34);
    out.push(58);
    proof {
        assert(out@ =~= o0 + key_x1() + num_repr(c@.x1) + key_y1());
    }
    write_num(out, c.y1);
    out.push(44);
    out.push(34);
    out.push(120);
    out.push(50);
    out.push(34);
    out.push(58);
    proof {
        assert(out@ =~= o0 + key_x1() + num_repr(c@.x1) + key_y1() + num_repr(c@.y1) + key_x2());
    }
    write_num(out, c.x2);
    out.push(44);
    out.push(34);
    out.push(121);
    out.push(50);
    out.push(34);
    out.push(58);
    proof {
        assert(out@ =~= o0 + key_x1() + num_repr(c@.x1) + key_y1() + num_repr(c@.y1) + key_x2()
            + num_repr(c@.x2) + key_y2());
    }
    write_num(out, c.y2);
    proof {
        assert(out@ =~= o0 + record_nums_repr(c@.x1, c@.y1, c@.x2, c@.y2));
    }
}

/// Append the canonical bytes of record `c` to `out`.
#[verifier::rlimit(100)]
fn write_record(out: &mut Vec<u8>, c: &JsonConfig)
    requires
        c@.wf(),
    ensures
        final(out)@ == old(out)@ + record_repr(c@),
{
    let ghost o0 = out@;
    write_record_nums(out, c);
    out.push(44);
    out.push(34);
    out.push(110);
    out.push(97);
    out.push(109);
    out.push(101);
    out.push(34);
    out.push(58);
    out.push(34);
    proof {
        assert(out@ =~= o0 + record_nums_repr(c@.x1, c@.y1, c@.x2, c@.y2) + key_name());
    }
    write_escaped(out, &c.name);
    out.push(34);
    out.push(125);
    proof {
        lemma_record_repr_split(c@);
        assert(out@ =~= o0 + (record_nums_repr(c@.x1, c@.y1, c@.x2, c@.y2) + key_name()
            + esc_bytes(c@.name) + seq![34u8, 125u8]));
    }
}

/// True when the six bytes of `k` sit in `b` at `i`.
fn expect6(b: &Vec<u8>, i: usize, k: (u8, u8, u8, u8, u8, u8)) -> (r: bool)
    requires
        i <= b@.len(),
    ensures
        r == (i + 6 <= b@.len() && b@.subrange(i as int, i + 6) == seq![
            k.0,
            k.1,
            k.2,
            k.3,
            k.4,
            k.5,
        ]),
{
    if b.len() - i < 6 {
        return false;
    }
    let ok = b[i] == k.0 && b[i + 1] == k.1 && b[i + 2] == k.2 && b[i + 3] == k.3 && b[i + 4]
        == k.4 && b[i + 5] == k.5;
    proof {
        let want: Seq<u8> = seq![k.0, k.1, k.2, k.3, k.4, k.5];
        if ok {
            assert(b@.subrange(i as int, i + 6) =~= want);
        } else {
            if b@.subrange(i as int, i + 6) == want {
                assert(b@[i as int] == want[0]);
                assert(b@[i + 1] == want[1]);
                assert(b@[i + 2] == want[2]);
                assert(b@[i + 3] == want[3]);
                assert(b@[i + 4] == want[4]);
                assert(b@[i + 5] == want[5]);
            }
        }
    }
    ok
}

/// True when the nine bytes of the name key sit in `b` at `i`.
fn expect_name_key(b: &Vec<u8>, i: usize) -> (r: bool)
    requires
        i <= b@.len(),
    ensures
        r == (i + 9 <= b@.len() && b@.subrange(i as int, i + 9) == key_name()),
{
    if b.len() - i < 9 {
        return false;
    }
    let ok = b[i] == 44 && b[i + 1] == 34 && b[i + 2] == 110 && b[i + 3] == 97 && b[i + 4] == 109
        && b[i + 5] == 101 && b[i + 6] == 34 && b[i + 7] == 58 && b[i + 8] == 34;
    proof {
        if ok {
            assert(b@.subrange(i as int, i + 9) =~= key_name());
        } else {
            if b@.subrange(i as int, i + 9) == key_name() {
                assert(b@[i as int] == key_name()[0]);
                assert(b@[i + 1] == key_name()[1]);
                assert(b@[i + 2] == key_name()[2]);
                assert(b@[i + 3] == key_name()[3]);
                assert(b@[i + 4] == key_name()[4]);
                assert(b@[i + 5] == key_name()[5]);
                assert(b@[i + 6] == key_name()[6]);
                assert(b@[i + 7] == key_name()[7]);
                assert(b@[i + 8] == key_name()[8]);
            }
        }
    }
    ok
}

/// The byte sequence of a six-byte key given as a tuple.
pub open spec fn key6_seq(k: (u8, u8, u8, u8, u8, u8)) -> Seq<u8> {
    seq![k.0, k.1, k.2, k.3, k.4, k.5]
}

/// Two numbers under two six-byte keys.
pub open spec fn pair_repr(ka: (u8, u8, u8, u8, u8, u8), kb: (u8, u8, u8, u8, u8, u8), v1: int, v2: int) -> Seq<u8> {
    key6_seq(ka) + num_repr(v1) + key6_seq(kb) + num_repr(v2)
}

/// Where `pair_repr` sits in `b` at `start`, each key and number sits at
/// its offset.
proof fn lemma_pair_shape(
    ka: (u8, u8, u8, u8, u8, u8),
    kb: (u8, u8, u8, u8, u8, u8),
    v1: int,
    v2: int,
    b: Seq<u8>,
    start: int,
)
    requires
        0 <= start,
        start + pair_repr(ka, kb, v1, v2).len() <= b.len(),
        b.subrange(start, start + pair_repr(ka, kb, v1, v2).len()) == pair_repr(ka, kb, v1, v2),
    ensures
        ({
            let n1 = num_repr(v1);
            let n2 = num_repr(v2);
            let p1 = start + 6;
            let p2 = p1 + n1.len();
            let p3 = p2 + 6;
            let p4 = p3 + n2.len();
            &&& b.subrange(start, p1) == key6_seq(ka)
            &&& b.subrange(p1, p2) == n1
            &&& b.subrange(p2, p3) == key6_seq(kb)
            &&& b.subrange(p3, p4) == n2
            &&& p4 == start + pair_repr(ka, kb, v1, v2).len()
        }),
{
    let n1 = num_repr(v1);
    let n2 = num_repr(v2);
    lemma_prefix_split(b, start, key6_seq(ka) + n1 + key6_seq(kb), n2);
    lemma_prefix_split(b, start, key6_seq(ka) + n1, key6_seq(kb));
    lemma_prefix_split(b, start, key6_seq(ka), n1);
}

/// Parse two numbers under two fixed six-byte keys at `start`. On
/// success the consumed bytes are exactly `pair_repr` of the two values;
/// conversely, that encoding of any two storable coordinates is
/// accepted.
#[verifier::rlimit(100)]
fn parse_pair(
    b: &Vec<u8>,
    start: usize,
    ka: (u8, u8, u8, u8, u8, u8),
    kb: (u8, u8, u8, u8, u8, u8),
) -> (r: Option<((i64, i64), usize)>)
    requires
        start <= b@.len(),
    ensures
        match r {
            Option::Some(p) => {
                &&& coord_ok(p.0.0 as int) && coord_ok(p.0.1 as int)
                &&& start < p.1 <= b@.len()
                &&& b@.subrange(start as int, p.1 as int) == pair_repr(
                    ka,
                    kb,
                    p.0.0 as int,
                    p.0.1 as int,
                )
            },
            Option::None => true,
        },
        match r {
            Option::Some(p) => forall|v1: int, v2: int|
                coord_ok(v1) && coord_ok(v2) && start + (#[trigger] pair_repr(
                    ka,
                    kb,
                    v1,
                    v2,
                )).len() <= b@.len() && b@.subrange(
                    start as int,
                    start + pair_repr(ka, kb, v1, v2).len(),
                ) == pair_repr(ka, kb, v1, v2) ==> p.0.0 == v1 && p.0.1 == v2 && p.1 == start
                    + pair_repr(ka, kb, v1, v2).len(),
            Option::None => forall|v1: int, v2: int|
                !(coord_ok(v1) && coord_ok(v2) && start + (#[trigger] pair_repr(
                    ka,
                    kb,
                    v1,
                    v2,
                )).len() <= b@.len() && b@.subrange(
                    start as int,
                    start + pair_repr(ka, kb, v1, v2).len(),
                ) == pair_repr(ka, kb, v1, v2)),
        },
{
    let ghost bs = b@;
    let blen = b.len();
    if !expect6(b, start, ka) {
        proof {
                assert forall|v1: int, v2: int|
                    !(coord_ok(v1) && coord_ok(v2) && start + (#[trigger] pair_repr(
                        ka,
                        kb,
                        v1,
                        v2,
                    )).len() <= bs.len() && bs.subrange(
                        start as int,
                        start + pair_repr(ka, kb, v1, v2).len(),
                    ) == pair_repr(ka, kb, v1, v2)) by {
                    if coord_ok(v1) && coord_ok(v2) && start + pair_repr(ka, kb, v1, v2).len()
                        <= bs.len() && bs.subrange(
                        start as int,
                        start + pair_repr(ka, kb, v1, v2).len(),
                    ) == pair_repr(ka, kb, v1, v2) {
                        lemma_pair_shape(ka, kb, v1, v2, bs, start as int);
                    }
                }
            }
            return Option::None;
    }
    proof {
        assert(bs.subrange(start as int, start + 6) == key6_seq(ka));
    }
    let (v1, q1) = match parse_num(b, start + 6) {
        Option::Some(p) => p,
        Option::None => {
            proof {
                assert forall|v1: int, v2: int|
                    !(coord_ok(v1) && coord_ok(v2) && start + (#[trigger] pair_repr(
                        ka,
                        kb,
                        v1,
                        v2,
                    )).len() <= bs.len() && bs.subrange(
                        start as int,
                        start + pair_repr(ka, kb, v1, v2).len(),
                    ) == pair_repr(ka, kb, v1, v2)) by {
                    if coord_ok(v1) && coord_ok(v2) && start + pair_repr(ka, kb, v1, v2).len()
                        <= bs.len() && bs.subrange(
                        start as int,
                        start + pair_repr(ka, kb, v1, v2).len(),
                    ) == pair_repr(ka, kb, v1, v2) {
                        lemma_pair_shape(ka, kb, v1, v2, bs, start as int);
                    }
                }
            }
            return Option::None;
        },
    };
    if !expect6(b, q1, kb) {
        proof {
                assert forall|v1: int, v2: int|
                    !(coord_ok(v1) && coord_ok(v2) && start + (#[trigger] pair_repr(
                        ka,
                        kb,
                        v1,
                        v2,
                    )).len() <= bs.len() && bs.subrange(
                        start as int,
                        start + pair_repr(ka, kb, v1, v2).len(),
                    ) == pair_repr(ka, kb, v1, v2)) by {
                    if coord_ok(v1) && coord_ok(v2) && start + pair_repr(ka, kb, v1, v2).len()
                        <= bs.len() && bs.subrange(
                        start as int,
                        start + pair_repr(ka, kb, v1, v2).len(),
                    ) == pair_repr(ka, kb, v1, v2) {
                        lemma_pair_shape(ka, kb, v1, v2, bs, start as int);
                    }
                }
            }
            return Option::None;
    }
    proof {
        assert(bs.subrange(q1 as int, q1 + 6) == key6_seq(kb));
    }
    let (v2, q2) = match parse_num(b, q1 + 6) {
        Option::Some(p) => p,
        Option::None => {
            proof {
                assert forall|v1: int, v2: int|
                    !(coord_ok(v1) && coord_ok(v2) && start + (#[trigger] pair_repr(
                        ka,
                        kb,
                        v1,
                        v2,
                    )).len() <= bs.len() && bs.subrange(
                        start as int,
                        start + pair_repr(ka, kb, v1, v2).len(),
                    ) == pair_repr(ka, kb, v1, v2)) by {
                    if coord_ok(v1) && coord_ok(v2) && start + pair_repr(ka, kb, v1, v2).len()
                        <= bs.len() && bs.subrange(
                        start as int,
                        start + pair_repr(ka, kb, v1, v2).len(),
                    ) == pair_repr(ka, kb, v1, v2) {
                        lemma_pair_shape(ka, kb, v1, v2, bs, start as int);
                    }
                }
            }
            return Option::None;
        },
    };
    proof {
        lemma_concat_assemble(bs, start as int, key6_seq(ka), num_repr(v1 as int));
        lemma_concat_assemble(bs, start as int, key6_seq(ka) + num_repr(v1 as int), key6_seq(kb));
        lemma_concat_assemble(
            bs,
            start as int,
            key6_seq(ka) + num_repr(v1 as int) + key6_seq(kb),
            num_repr(v2 as int),
        );
        assert forall|w1: int, w2: int|
            coord_ok(w1) && coord_ok(w2) && start + (#[trigger] pair_repr(
                ka,
                kb,
                w1,
                w2,
            )).len() <= bs.len() && bs.subrange(
                start as int,
                start + pair_repr(ka, kb, w1, w2).len(),
            ) == pair_repr(ka, kb, w1, w2) implies v1 == w1 && v2 == w2 && q2 == start + pair_repr(
            ka,
            kb,
            w1,
            w2,
        ).len() by {
            lemma_pair_shape(ka, kb, w1, w2, bs, start as int);
        }
    }
    Option::Some(((v1, v2), q2))
}

/// `record_nums_repr` is two key-number pairs in sequence.
pub proof fn lemma_record_nums_pairs(v1: int, v2: int, v3: int, v4: int)
    ensures
        record_nums_repr(v1, v2, v3, v4) == pair_repr(
            (123u8, 34u8, 120u8, 49u8, 34u8, 58u8),
            (44u8, 34u8, 121u8, 49u8, 34u8, 58u8),
            v1,
            v2,
        ) + pair_repr(
            (44u8, 34u8, 120u8, 50u8, 34u8, 58u8),
            (44u8, 34u8, 121u8, 50u8, 34u8, 58u8),
            v3,
            v4,
        ),
{
    assert(record_nums_repr(v1, v2, v3, v4) =~= pair_repr(
        (123u8, 34u8, 120u8, 49u8, 34u8, 58u8),
        (44u8, 34u8, 121u8, 49u8, 34u8, 58u8),
        v1,
        v2,
    ) + pair_repr(
        (44u8, 34u8, 120u8, 50u8, 34u8, 58u8),
        (44u8, 34u8, 121u8, 50u8, 34u8, 58u8),
        v3,
        v4,
    ));
}

/// Parse the coordinate half of a record at `start`. On success the
/// consumed bytes are exactly the four numbers under their keys;
/// conversely, that encoding of any four storable coordinates is
/// accepted.
#[verifier::rlimit(100)]
fn parse_record_nums(b: &Vec<u8>, start: usize) -> (r: Option<((i64, i64, i64, i64), usize)>)
    requires
        start <= b@.len(),
    ensures
        match r {
            Option::Some(p) => {
                &&& coord_ok(p.0.0 as int) && coord_ok(p.0.1 as int) && coord_ok(p.0.2 as int)
                    && coord_ok(p.0.3 as int)
                &&& start < p.1 <= b@.len()
                &&& b@.subrange(start as int, p.1 as int) == record_nums_repr(
                    p.0.0 as int,
                    p.0.1 as int,
                    p.0.2 as int,
                    p.0.3 as int,
                )
            },
            Option::None => true,
        },
        match r {
            Option::Some(p) => forall|v1: int, v2: int, v3: int, v4: int|
                coord_ok(v1) && coord_ok(v2) && coord_ok(v3) && coord_ok(v4) && start
                    + (#[trigger] record_nums_repr(v1, v2, v3, v4)).len() <= b@.len()
                    && b@.subrange(start as int, start + record_nums_repr(v1, v2, v3, v4).len())
                    == record_nums_repr(v1, v2, v3, v4) ==> p.0.0 == v1 && p.0.1 == v2 && p.0.2
                    == v3 && p.0.3 == v4 && p.1 == start + record_nums_repr(v1, v2, v3, v4).len(),
            Option::None => forall|v1: int, v2: int, v3: int, v4: int|
                !(coord_ok(v1) && coord_ok(v2) && coord_ok(v3) && coord_ok(v4) && start
                    + (#[trigger] record_nums_repr(v1, v2, v3, v4)).len() <= b@.len()
                    && b@.subrange(start as int, start + record_nums_repr(v1, v2, v3, v4).len())
                    == record_nums_repr(v1, v2, v3, v4)),
        },
{
    let ghost bs = b@;
    let (pa, qa) = match parse_pair(b, start, (123, 34, 120, 49, 34, 58), (44, 34, 121, 49, 34, 58)) {
        Option::Some(p) => p,
        Option::None => {
            proof {
                assert forall|v1: int, v2: int, v3: int, v4: int|
                    !(coord_ok(v1) && coord_ok(v2) && coord_ok(v3) && coord_ok(v4) && start
                        + (#[trigger] record_nums_repr(v1, v2, v3, v4)).len() <= bs.len()
                        && bs.subrange(start as int, start + record_nums_repr(v1, v2, v3, v4).len())
                        == record_nums_repr(v1, v2, v3, v4)) by {
                    if coord_ok(v1) && coord_ok(v2) && coord_ok(v3) && coord_ok(v4) && start
                        + record_nums_repr(v1, v2, v3, v4).len() <= bs.len() && bs.subrange(
                        start as int,
                        start + record_nums_repr(v1, v2, v3, v4).len(),
                    ) == record_nums_repr(v1, v2, v3, v4) {
                        lemma_record_nums_pairs(v1, v2, v3, v4);
                        lemma_prefix_split(
                            bs,
                            start as int,
                            pair_repr(
                                (123u8, 34u8, 120u8, 49u8, 34u8, 58u8),
                                (44u8, 34u8, 121u8, 49u8, 34u8, 58u8),
                                v1,
                                v2,
                            ),
                            pair_repr(
                                (44u8, 34u8, 120u8, 50u8, 34u8, 58u8),
                                (44u8, 34u8, 121u8, 50u8, 34u8, 58u8),
                                v3,
                                v4,
                            ),
                        );
                    }
                }
            }
            return Option::None;
        },
    };
    let (pb, qb) = match parse_pair(b, qa, (44, 34, 120, 50, 34, 58), (44, 34, 121, 50, 34, 58)) {
        Option::Some(p) => p,
        Option::None => {
            proof {
                assert forall|v1: int, v2: int, v3: int, v4: int|
                    !(coord_ok(v1) && coord_ok(v2) && coord_ok(v3) && coord_ok(v4) && start
                        + (#[trigger] record_nums_repr(v1, v2, v3, v4)).len() <= bs.len()
                        && bs.subrange(start as int, start + record_nums_repr(v1, v2, v3, v4).len())
                        == record_nums_repr(v1, v2, v3, v4)) by {
                    if coord_ok(v1) && coord_ok(v2) && coord_ok(v3) && coord_ok(v4) && start
                        + record_nums_repr(v1, v2, v3, v4).len() <= bs.len() && bs.subrange(
                        start as int,
                        start + record_nums_repr(v1, v2, v3, v4).len(),
                    ) == record_nums_repr(v1, v2, v3, v4) {
                        lemma_record_nums_pairs(v1, v2, v3, v4);
                        lemma_prefix_split(
                            bs,
                            start as int,
                            pair_repr(
                                (123u8, 34u8, 120u8, 49u8, 34u8, 58u8),
                                (44u8, 34u8, 121u8, 49u8, 34u8, 58u8),
                                v1,
                                v2,
                            ),
                            pair_repr(
                                (44u8, 34u8, 120u8, 50u8, 34u8, 58u8),
                                (44u8, 34u8, 121u8, 50u8, 34u8, 58u8),
                                v3,
                                v4,
                            ),
                        );
                    }
                }
            }
            return Option::None;
        },
    };
    proof {
        lemma_concat_assemble(
            bs,
            start as int,
            pair_repr(
                (123u8, 34u8, 120u8, 49u8, 34u8, 58u8),
                (44u8, 34u8, 121u8, 49u8, 34u8, 58u8),
                pa.0 as int,
                pa.1 as int,
            ),
            pair_repr(
                (44u8, 34u8, 120u8, 50u8, 34u8, 58u8),
                (44u8, 34u8, 121u8, 50u8, 34u8, 58u8),
                pb.0 as int,
                pb.1 as int,
            ),
        );
        lemma_record_nums_pairs(pa.0 as int, pa.1 as int, pb.0 as int, pb.1 as int);
        assert forall|v1: int, v2: int, v3: int, v4: int|
            coord_ok(v1) && coord_ok(v2) && coord_ok(v3) && coord_ok(v4) && start
                + (#[trigger] record_nums_repr(v1, v2, v3, v4)).len() <= bs.len() && bs.subrange(
                start as int,
                start + record_nums_repr(v1, v2, v3, v4).len(),
            ) == record_nums_repr(v1, v2, v3, v4) implies pa.0 == v1 && pa.1 == v2 && pb.0 == v3
            && pb.1 == v4 && qb == start + record_nums_repr(v1, v2, v3, v4).len() by {
            lemma_record_nums_pairs(v1, v2, v3, v4);
            lemma_prefix_split(
                bs,
                start as int,
                pair_repr(
                    (123u8, 34u8, 120u8, 49u8, 34u8, 58u8),
                    (44u8, 34u8, 121u8, 49u8, 34u8, 58u8),
                    v1,
                    v2,
                ),
                pair_repr(
                    (44u8, 34u8, 120u8, 50u8, 34u8, 58u8),
                    (44u8, 34u8, 121u8, 50u8, 34u8, 58u8),
                    v3,
                    v4,
                ),
            );
        }
    }
    Option::Some(((pa.0, pa.1, pb.0, pb.1), qb))
}

/// Where `record_repr(cv)` sits in `b` at `start`, its coordinate half,
/// name key, escaped name, quote and brace sit at their offsets.
proof fn lemma_record_shape(cv: JsonConfigV, b: Seq<u8>, start: int)
    requires
        0 <= start,
        start + record_repr(cv).len() <= b.len(),
        b.subrange(start, start + record_repr(cv).len()) == record_repr(cv),
    ensures
        ({
            let rn = record_nums_repr(cv.x1, cv.y1, cv.x2, cv.y2);
            let p8 = start + rn.len();
            let p9 = p8 + 9;
            let p10 = p9 + esc_bytes(cv.name).len();
            &&& b.subrange(start, p8) == rn
            &&& b.subrange(p8, p9) == key_name()
            &&& b.subrange(p9, p10) == esc_bytes(cv.name)
            &&& p10 + 2 == start + record_repr(cv).len()
            &&& b[p10] == 34
            &&& b[p10 + 1] == 125
        }),
{
    let rn = record_nums_repr(cv.x1, cv.y1, cv.x2, cv.y2);
    let es = esc_bytes(cv.name);
    lemma_record_repr_split(cv);
    lemma_prefix_split(b, start, rn + key_name() + es, seq![34u8, 125u8]);
    lemma_prefix_split(b, start, rn + key_name(), es);
    lemma_prefix_split(b, start, rn, key_name());
    let p10 = start + record_repr(cv).len() - 2;
    assert(b.subrange(p10, p10 + 2) == seq![34u8, 125u8]);
    assert(b[p10] == seq![34u8, 125u8][0]);
    assert(b[p10 + 1] == seq![34u8, 125u8][1]);
}

/// Parse one record at `start`. On success the consumed bytes are
/// exactly the record's canonical representation; conversely, the
/// canonical representation of any well-formed record is accepted.
#[verifier::rlimit(100)]
fn parse_record(b: &Vec<u8>, start: usize) -> (r: Option<(JsonConfig, usize)>)
    requires
        start <= b@.len(),
    ensures
        match r {
            Option::Some(p) => {
                &&& p.0@.wf()
                &&& start < p.1 <= b@.len()
                &&& b@.subrange(start as int, p.1 as int) == record_repr(p.0@)
            },
            Option::None => true,
        },
        match r {
            Option::Some(p) => forall|cv: JsonConfigV|
                cv.wf() && start + (#[trigger] record_repr(cv)).len() <= b@.len() && b@.subrange(
                    start as int,
                    start + record_repr(cv).len(),
                ) == record_repr(cv) ==> p.0@ == cv && p.1 == start + record_repr(cv).len(),
            Option::None => forall|cv: JsonConfigV|
                !(cv.wf() && start + (#[trigger] record_repr(cv)).len() <= b@.len()
                    && b@.subrange(start as int, start + record_repr(cv).len()) == record_repr(
                    cv,
                )),
        },
{
    let ghost bs = b@;
    let blen = b.len();
    let (nums, q4) = match parse_record_nums(b, start) {
        Option::Some(p) => p,
        Option::None => {
            proof {
                assert forall|cv: JsonConfigV|
                    !(cv.wf() && start + (#[trigger] record_repr(cv)).len() <= bs.len()
                        && bs.subrange(start as int, start + record_repr(cv).len())
                        == record_repr(cv)) by {
                    if cv.wf() && start + record_repr(cv).len() <= bs.len() && bs.subrange(
                        start as int,
                        start + record_repr(cv).len(),
                    ) == record_repr(cv) {
                        lemma_record_shape(cv, bs, start as int);
                    }
                }
            }
            return Option::None;
        },
    };
    if !expect_name_key(b, q4) {
        proof {
                assert forall|cv: JsonConfigV|
                    !(cv.wf() && start + (#[trigger] record_repr(cv)).len() <= bs.len()
                        && bs.subrange(start as int, start + record_repr(cv).len())
                        == record_repr(cv)) by {
                    if cv.wf() && start + record_repr(cv).len() <= bs.len() && bs.subrange(
                        start as int,
                        start + record_repr(cv).len(),
                    ) == record_repr(cv) {
                        lemma_record_shape(cv, bs, start as int);
                    }
                }
            }
            return Option::None;
    }
    let (namev, q5) = match parse_string(b, q4 + 9) {
        Option::Some(p) => p,
        Option::None => {
            proof {
                assert forall|cv: JsonConfigV|
                    !(cv.wf() && start + (#[trigger] record_repr(cv)).len() <= bs.len()
                        && bs.subrange(start as int, start + record_repr(cv).len())
                        == record_repr(cv)) by {
                    if cv.wf() && start + record_repr(cv).len() <= bs.len() && bs.subrange(
                        start as int,
                        start + record_repr(cv).len(),
                    ) == record_repr(cv) {
                        lemma_record_shape(cv, bs, start as int);
                    }
                }
            }
            return Option::None;
        },
    };
    if !(q5 < blen && b[q5] == 125) {
        proof {
                assert forall|cv: JsonConfigV|
                    !(cv.wf() && start + (#[trigger] record_repr(cv)).len() <= bs.len()
                        && bs.subrange(start as int, start + record_repr(cv).len())
                        == record_repr(cv)) by {
                    if cv.wf() && start + record_repr(cv).len() <= bs.len() && bs.subrange(
                        start as int,
                        start + record_repr(cv).len(),
                    ) == record_repr(cv) {
                        lemma_record_shape(cv, bs, start as int);
                    }
                }
            }
            return Option::None;
    }
    let c = JsonConfig { x1: nums.0, y1: nums.1, x2: nums.2, y2: nums.3, name: namev };
    proof {
        let rn = record_nums_repr(c@.x1, c@.y1, c@.x2, c@.y2);
        let es = esc_bytes(c@.name);
        lemma_concat_assemble(bs, start as int, rn, key_name());
        lemma_concat_assemble(bs, start as int, rn + key_name(), es + seq![34u8]);
        assert(bs.subrange(q5 as int, q5 + 1) =~= seq![125u8]);
        lemma_concat_assemble(bs, start as int, rn + key_name() + (es + seq![34u8]), seq![125u8]);
        lemma_record_repr_split(c@);
        assert(bs.subrange(start as int, q5 + 1) =~= record_repr(c@));
        assert forall|cv: JsonConfigV|
            cv.wf() && start + (#[trigger] record_repr(cv)).len() <= bs.len() && bs.subrange(
                start as int,
                start + record_repr(cv).len(),
            ) == record_repr(cv) implies c@ == cv && q5 + 1 == start + record_repr(cv).len() by {
            lemma_record_shape(cv, bs, start as int);
            assert(c@ =~= cv);
        }
    }
    Option::Some((c, q5 + 1))
}

/// The mathematical values of a stored record sequence.
pub open spec fn views(s: Seq<JsonConfig>) -> Seq<JsonConfigV> {
    s.map_values(|c: JsonConfig| c@)
}

/// Every record of the sequence has storable coordinates.
pub open spec fn records_wf(s: Seq<JsonConfigV>) -> bool {
    forall|i: int| 0 <= i < s.len() ==> (#[trigger] s[i]).wf()
}

/// The records from index `m` on, each preceded by a comma.
pub open spec fn tail_repr(s: Seq<JsonConfigV>, m: int) -> Seq<u8>
    decreases s.len() - m,
{
    if m >= s.len() {
        Seq::empty()
    } else {
        seq![44u8] + record_repr(s[m]) + tail_repr(s, m + 1)
    }
}

/// The bytes between the brackets: the records in order, separated by
/// commas.
pub open spec fn inner_repr(s: Seq<JsonConfigV>) -> Seq<u8> {
    if s.len() == 0 {
        Seq::empty()
    } else {
        record_repr(s[0]) + tail_repr(s, 1)
    }
}

/// Canonical bytes of a whole record set: a JSON array of the records.
pub open spec fn records_repr(s: Seq<JsonConfigV>) -> Seq<u8> {
    seq![91u8] + inner_repr(s) + seq![93u8]
}

/// Appending a record to a nonempty prefix appends a comma and the
/// record's bytes after `m`.
proof fn lemma_tail_push(t: Seq<JsonConfigV>, x: JsonConfigV, m: int)
    requires
        0 <= m <= t.len(),
    ensures
        tail_repr(t.push(x), m) == tail_repr(t, m) + seq![44u8] + record_repr(x),
    decreases t.len() - m,
{
    if m == t.len() {
        assert(tail_repr(t.push(x), m + 1) =~= Seq::<u8>::empty());
        assert(t.push(x)[m] == x);
        assert(tail_repr(t.push(x), m) =~= tail_repr(t, m) + seq![44u8] + record_repr(x));
    } else {
        lemma_tail_push(t, x, m + 1);
        assert(t.push(x)[m] == t[m]);
        assert(tail_repr(t.push(x), m) =~= tail_repr(t, m) + seq![44u8] + record_repr(x));
    }
}

/// Appending a record extends the comma-separated bytes.
proof fn lemma_inner_push(t: Seq<JsonConfigV>, x: JsonConfigV)
    ensures
        t.len() == 0 ==> inner_repr(t.push(x)) == record_repr(x),
        t.len() > 0 ==> inner_repr(t.push(x)) == inner_repr(t) + seq![44u8] + record_repr(x),
{
    if t.len() == 0 {
        assert(tail_repr(t.push(x), 1) =~= Seq::<u8>::empty());
        assert(inner_repr(t.push(x)) =~= record_repr(x));
    } else {
        lemma_tail_push(t, x, 1);
        assert(t.push(x)[0] == t[0]);
        assert(inner_repr(t.push(x)) =~= inner_repr(t) + seq![44u8] + record_repr(x));
    }
}

/// Serialize a record set to its canonical bytes.
pub fn serialize(configs: &Vec<JsonConfig>) -> (out: Vec<u8>)
    requires
        forall|i: int| 0 <= i < configs@.len() ==> (#[trigger] configs@[i])@.wf(),
    ensures
        out@ == records_repr(views(configs@)),
{
    let ghost vs = views(configs@);
    let mut out: Vec<u8> = Vec::new();
    out.push(91);
    let mut i: usize = 0;
    while i < configs.len()
        invariant
            0 <= i <= configs@.len(),
            vs == views(configs@),
            vs.len() == configs@.len(),
            forall|j: int| 0 <= j < configs@.len() ==> (#[trigger] configs@[j])@.wf(),
            out@ == seq![91u8] + inner_repr(vs.take(i as int)),
        decreases configs@.len() - i,
    {
        if i > 0 {
            out.push(44);
        }
        let c = &configs[i];
        write_record(&mut out, c);
        proof {
            assert(vs.take(i + 1) =~= vs.take(i as int).push(vs[i as int]));
            lemma_inner_push(vs.take(i as int), vs[i as int]);
            assert(vs[i as int] == c@);
            assert(out@ =~= seq![91u8] + inner_repr(vs.take(i + 1)));
        }
        i = i + 1;
    }
    out.push(93);
    proof {
        assert(vs.take(vs.len() as int) =~= vs);
        assert(out@ =~= records_repr(vs));
    }
    out
}

/// The separator before record `k`: nothing for the first record, a
/// comma for every later one.
pub open spec fn mid_repr(k: int) -> Seq<u8> {
    if k == 0 {
        Seq::empty()
    } else {
        seq![44u8]
    }
}

/// The comma-separated bytes split at record `k`.
proof fn lemma_inner_decomp(s: Seq<JsonConfigV>, k: int)
    requires
        0 <= k < s.len(),
    ensures
        inner_repr(s) == inner_repr(s.take(k)) + mid_repr(k) + record_repr(s[k]) + tail_repr(
            s,
            k + 1,
        ),
    decreases k,
{
    if k == 0 {
        assert(s.take(0) =~= Seq::<JsonConfigV>::empty());
        assert(inner_repr(s) =~= inner_repr(s.take(0)) + mid_repr(0) + record_repr(s[0])
            + tail_repr(s, 1));
    } else {
        lemma_inner_decomp(s, k - 1);
        let sp = s.take(k);
        lemma_inner_decomp(sp, k - 1);
        assert(sp.take(k - 1) =~= s.take(k - 1));
        assert(sp[k - 1] == s[k - 1]);
        assert(tail_repr(sp, k) =~= Seq::<u8>::empty());
        assert(inner_repr(sp) =~= inner_repr(s.take(k - 1)) + mid_repr(k - 1) + record_repr(
            s[k - 1],
        ));
        assert(tail_repr(s, k) == seq![44u8] + record_repr(s[k]) + tail_repr(s, k + 1));
        assert(inner_repr(s) =~= inner_repr(s.take(k)) + mid_repr(k) + record_repr(s[k])
            + tail_repr(s, k + 1));
    }
}

/// Where a whole record set's bytes are `b`, record `k` sits right after
/// the first `k` records and their separators, and is followed by a
/// comma (more records to come) or the closing bracket at the very end.
proof fn lemma_records_at(s: Seq<JsonConfigV>, b: Seq<u8>, k: int, pos: int)
    requires
        b == records_repr(s),
        0 <= k < s.len(),
        pos == 1 + inner_repr(s.take(k)).len() + mid_repr(k).len(),
    ensures
        pos + record_repr(s[k]).len() <= b.len(),
        b.subrange(pos, pos + record_repr(s[k]).len()) == record_repr(s[k]),
        k + 1 < s.len() ==> pos + record_repr(s[k]).len() < b.len() && b[pos + record_repr(
            s[k],
        ).len()] == 44,
        k + 1 == s.len() ==> pos + record_repr(s[k]).len() + 1 == b.len() && b[pos + record_repr(
            s[k],
        ).len()] == 93,
{
    lemma_inner_decomp(s, k);
    assert(b.subrange(0, b.len() as int) =~= b);
    lemma_prefix_split(b, 0, seq![91u8] + inner_repr(s), seq![93u8]);
    lemma_prefix_split(b, 0, seq![91u8], inner_repr(s));
    lemma_prefix_split(
        b,
        1,
        inner_repr(s.take(k)) + mid_repr(k) + record_repr(s[k]),
        tail_repr(s, k + 1),
    );
    lemma_prefix_split(b, 1, inner_repr(s.take(k)) + mid_repr(k), record_repr(s[k]));
    let q = pos + record_repr(s[k]).len();
    if k + 1 < s.len() {
        assert(tail_repr(s, k + 1) == seq![44u8] + record_repr(s[k + 1]) + tail_repr(s, k + 2));
        assert(b[q] == tail_repr(s, k + 1)[0]);
    } else {
        assert(tail_repr(s, k + 1) =~= Seq::<u8>::empty());
        assert(b[q] == seq![93u8][0]);
    }
}

/// Parse a record set from its canonical bytes. Only the canonical
/// encoding of a well-formed record set is accepted, and it yields that
/// record set: together with `serialize`'s contract this gives the round
/// trip, with no other byte strings accepted.
#[verifier::rlimit(100)]
pub fn deserialize(bytes: &Vec<u8>) -> (r: Option<Vec<JsonConfig>>)
    ensures
        match r {
            Option::Some(v) => {
                &&& forall|i: int| 0 <= i < v@.len() ==> (#[trigger] v@[i])@.wf()
                &&& bytes@ == records_repr(views(v@))
                &&& forall|s: Seq<JsonConfigV>|
                    records_wf(s) && bytes@ == (#[trigger] records_repr(s)) ==> views(v@) == s
            },
            Option::None => forall|s: Seq<JsonConfigV>|
                !(records_wf(s) && bytes@ == (#[trigger] records_repr(s))),
        },
{
    let ghost bs = bytes@;
    let blen = bytes.len();
    if blen < 2 || bytes[0] != 91 {
        proof {
            assert forall|s: Seq<JsonConfigV>|
                !(records_wf(s) && bs == (#[trigger] records_repr(s))) by {
                if records_wf(s) && bs == records_repr(s) {
                    assert(bs[0] == seq![91u8][0]);
                }
            }
        }
        return Option::None;
    }
    if bytes[1] == 93 {
        if blen == 2 {
            let out: Vec<JsonConfig> = Vec::new();
            proof {
                assert(views(out@) =~= Seq::<JsonConfigV>::empty());
                assert(inner_repr(views(out@)) =~= Seq::<u8>::empty());
                assert(bs =~= records_repr(views(out@)));
                assert forall|s: Seq<JsonConfigV>|
                    records_wf(s) && bs == (#[trigger] records_repr(s)) implies views(out@)
                    == s by {
                    if s.len() > 0 {
                        lemma_records_at(s, bs, 0, 1);
                        assert(bs[1] == record_repr(s[0])[0]);
                        assert(record_repr(s[0])[0] == key_x1()[0]);
                    }
                    assert(s =~= views(out@));
                }
            }
            return Option::Some(out);
        } else {
            proof {
                assert forall|s: Seq<JsonConfigV>|
                    !(records_wf(s) && bs == (#[trigger] records_repr(s))) by {
                    if records_wf(s) && bs == records_repr(s) {
                        if s.len() > 0 {
                            lemma_records_at(s, bs, 0, 1);
                            assert(bs[1] == record_repr(s[0])[0]);
                            assert(record_repr(s[0])[0] == key_x1()[0]);
                        } else {
                            assert(inner_repr(s) =~= Seq::<u8>::empty());
                            assert(records_repr(s).len() == 2);
                        }
                    }
                }
            }
            return Option::None;
        }
    }
    let mut out: Vec<JsonConfig> = Vec::new();
    let mut pos: usize = 1;
    loop
        invariant
            1 <= pos <= blen,
            blen == bs.len(),
            bs == bytes@,
            bs[0] == 91u8,
            forall|i: int| 0 <= i < out@.len() ==> (#[trigger] out@[i])@.wf(),
            out@.len() == 0 ==> pos == 1,
            out@.len() > 0 ==> bs.subrange(0, pos as int) == seq![91u8] + inner_repr(views(out@))
                + seq![44u8],
            views(out@).len() == out@.len(),
            forall|s: Seq<JsonConfigV>|
                records_wf(s) && bs == (#[trigger] records_repr(s)) ==> views(out@) == s.take(
                    out@.len() as int,
                ) && out@.len() < s.len(),
        decreases blen - pos,
    {
        let ghost k = out@.len() as int;
        let ghost vs0 = views(out@);
        let (rec, p2) = match parse_record(bytes, pos) {
            Option::Some(p) => p,
            Option::None => {
                proof {
                    assert forall|s: Seq<JsonConfigV>|
                        !(records_wf(s) && bs == (#[trigger] records_repr(s))) by {
                        if records_wf(s) && bs == records_repr(s) {
                            assert(inner_repr(s.take(k)) == inner_repr(vs0));
                            lemma_records_at(s, bs, k, pos as int);
                        }
                    }
                }
                return Option::None;
            },
        };
        out.push(rec);
        proof {
            assert(views(out@) =~= vs0.push(rec@));
            lemma_inner_push(vs0, rec@);
            if k == 0 {
                assert(bs.subrange(0, 1) =~= seq![91u8]);
                lemma_concat_assemble(bs, 0, seq![91u8], record_repr(rec@));
                assert(bs.subrange(0, p2 as int) == seq![91u8] + inner_repr(views(out@)));
            } else {
                lemma_concat_assemble(
                    bs,
                    0,
                    seq![91u8] + inner_repr(vs0) + seq![44u8],
                    record_repr(rec@),
                );
                assert(bs.subrange(0, p2 as int) =~= seq![91u8] + inner_repr(views(out@)));
            }
            assert forall|s: Seq<JsonConfigV>|
                records_wf(s) && bs == (#[trigger] records_repr(s)) implies views(out@) == s.take(
                    out@.len() as int,
                ) && p2 == pos + record_repr(s[k]).len() by {
                assert(inner_repr(s.take(k)) == inner_repr(vs0));
                lemma_records_at(s, bs, k, pos as int);
                assert(rec@ == s[k]);
                assert(views(out@) =~= s.take(k + 1));
            }
        }
        if p2 < blen && bytes[p2] == 44 {
            proof {
                assert forall|s: Seq<JsonConfigV>|
                    records_wf(s) && bs == (#[trigger] records_repr(s)) implies views(out@)
                    == s.take(out@.len() as int) && out@.len() < s.len() by {
                    assert(inner_repr(s.take(k)) == inner_repr(vs0));
                    lemma_records_at(s, bs, k, pos as int);
                    if k + 1 == s.len() {
                        assert(bs[p2 as int] == 93);
                    }
                }
                assert(bs.subrange(p2 as int, p2 + 1) =~= seq![44u8]);
                lemma_concat_assemble(
                    bs,
                    0,
                    seq![91u8] + inner_repr(views(out@)),
                    seq![44u8],
                );
            }
            pos = p2 + 1;
        } else if p2 < blen && bytes[p2] == 93 {
            if p2 + 1 == blen {
                proof {
                    assert(bs.subrange(p2 as int, p2 + 1) =~= seq![93u8]);
                    lemma_concat_assemble(
                        bs,
                        0,
                        seq![91u8] + inner_repr(views(out@)),
                        seq![93u8],
                    );
                    assert(bs.subrange(0, blen as int) =~= bs);
                    assert(bs == records_repr(views(out@)));
                    assert forall|s: Seq<JsonConfigV>|
                        records_wf(s) && bs == (#[trigger] records_repr(s)) implies views(out@)
                        == s by {
                        assert(inner_repr(s.take(k)) == inner_repr(vs0));
                        lemma_records_at(s, bs, k, pos as int);
                        if k + 1 < s.len() {
                            assert(bs[p2 as int] == 44);
                        }
                        assert(views(out@) == s.take(k + 1));
                        assert(s.take(k + 1) =~= s);
                    }
                }
                return Option::Some(out);
            } else {
                proof {
                    assert forall|s: Seq<JsonConfigV>|
                        !(records_wf(s) && bs == (#[trigger] records_repr(s))) by {
                        if records_wf(s) && bs == records_repr(s) {
                            assert(inner_repr(s.take(k)) == inner_repr(vs0));
                            lemma_records_at(s, bs, k, pos as int);
                            if k + 1 < s.len() {
                                assert(bs[p2 as int] == 44);
                            }
                        }
                    }
                }
                return Option::None;
            }
        } else {
            proof {
                assert forall|s: Seq<JsonConfigV>|
                    !(records_wf(s) && bs == (#[trigger] records_repr(s))) by {
                    if records_wf(s) && bs == records_repr(s) {
                        assert(inner_repr(s.take(k)) == inner_repr(vs0));
                        lemma_records_at(s, bs, k, pos as int);
                        if k + 1 < s.len() {
                            assert(bs[p2 as int] == 44);
                        }
                        if k + 1 == s.len() {
                            assert(bs[p2 as int] == 93);
                        }
                    }
                }
            }
            return Option::None;
        }
    }
}

impl ConfigData {
    /// Serialize this collection's records to their canonical bytes.
    pub fn serialize(&self) -> (out: Vec<u8>)
        requires
            self.wf(),
        ensures
            out@ == records_repr(views(self.config@)),
    {
        serialize(&self.config)
    }
}

} // verus!
