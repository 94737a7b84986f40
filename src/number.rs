//! Reading a decimal number in JSON notation into a fixed-point integer.
use vstd::prelude::*;
use crate::codec::bytes_match;
use vstd::utf8::is_ascii_chars;

verus! {

pub open spec fn is_digit(c: char) -> bool {
    '0' <= c <= '9'
}

pub open spec fn all_digits(s: Seq<char>) -> bool {
    forall|i: int| 0 <= i < s.len() ==> is_digit(#[trigger] s[i])
}

/// The value of a string of decimal digits.
pub open spec fn digits_value(s: Seq<char>) -> int
    decreases s.len(),
{
    if s.len() == 0 {
        0
    } else {
        digits_value(s.drop_last()) * 10 + (s.last() as int - '0' as int)
    }
}

pub open spec fn pow10(n: nat) -> int
    decreases n,
{
    if n == 0 {
        1
    } else {
        10 * pow10((n - 1) as nat)
    }
}

/// The first position from `i` on that holds `a` or `b`, or the length.
pub open spec fn find_either(s: Seq<char>, i: int, a: char, b: char) -> int
    decreases s.len() - i,
{
    if i < 0 || i >= s.len() {
        s.len() as int
    } else if s[i] == a || s[i] == b {
        i
    } else {
        find_either(s, i + 1, a, b)
    }
}

pub open spec fn sign_len(t: Seq<char>) -> int {
    if t.len() > 0 && t[0] == '-' {
        1
    } else {
        0
    }
}

pub open spec fn exp_at(t: Seq<char>) -> int {
    find_either(t, sign_len(t), 'e', 'E')
}

pub open spec fn dot_at(t: Seq<char>) -> int {
    find_either(t, sign_len(t), '.', '.')
}

pub open spec fn has_fraction(t: Seq<char>) -> bool {
    dot_at(t) < exp_at(t)
}

pub open spec fn int_digits(t: Seq<char>) -> Seq<char> {
    t.subrange(sign_len(t), if has_fraction(t) { dot_at(t) } else { exp_at(t) })
}

pub open spec fn frac_digits(t: Seq<char>) -> Seq<char> {
    if has_fraction(t) {
        t.subrange(dot_at(t) + 1, exp_at(t))
    } else {
        Seq::empty()
    }
}

pub open spec fn has_exponent(t: Seq<char>) -> bool {
    exp_at(t) < t.len()
}

pub open spec fn exp_negative(t: Seq<char>) -> bool {
    exp_at(t) + 1 < t.len() && t[exp_at(t) + 1] == '-'
}

pub open spec fn exp_sign_len(t: Seq<char>) -> int {
    if exp_at(t) + 1 < t.len() && (t[exp_at(t) + 1] == '-' || t[exp_at(t) + 1] == '+') {
        1
    } else {
        0
    }
}

pub open spec fn exp_digits(t: Seq<char>) -> Seq<char> {
    if has_exponent(t) {
        t.subrange(exp_at(t) + 1 + exp_sign_len(t), t.len() as int)
    } else {
        Seq::empty()
    }
}

/// `t` is a number in JSON notation (leading zeros allowed): an optional minus, at
/// least one digit, optionally a point and at least one digit, optionally an `e` or
/// `E`, a sign and at least one digit.
pub open spec fn is_json_number(t: Seq<char>) -> bool {
    &&& is_ascii_chars(t)
    &&& int_digits(t).len() >= 1
    &&& all_digits(int_digits(t))
    &&& has_fraction(t) ==> frac_digits(t).len() >= 1
    &&& all_digits(frac_digits(t))
    &&& has_exponent(t) ==> exp_digits(t).len() >= 1
    &&& all_digits(exp_digits(t))
}

/// All digits of the number, read as one integer.
pub open spec fn mantissa(t: Seq<char>) -> int {
    digits_value(int_digits(t) + frac_digits(t))
}

/// The power of ten that multiplies the mantissa.
pub open spec fn exponent(t: Seq<char>) -> int {
    (if exp_negative(t) {
        -digits_value(exp_digits(t))
    } else {
        digits_value(exp_digits(t))
    }) - frac_digits(t).len()
}

/// The number times `10^scale`, truncated toward zero.
pub open spec fn scaled_value(t: Seq<char>, scale: nat) -> int {
    let k = exponent(t) + scale;
    let m = if k >= 0 {
        mantissa(t) * pow10(k as nat)
    } else {
        mantissa(t) / pow10((-k) as nat)
    };
    if sign_len(t) == 1 {
        -m
    } else {
        m
    }
}

/// The digits of the mantissa and of the exponent each fit in a `u64`.
pub open spec fn within_limits(t: Seq<char>) -> bool {
    &&& mantissa(t) <= u64::MAX
    &&& digits_value(exp_digits(t)) <= u64::MAX
}

/// What `scaled_number` returns: the number at `scale` decimal places where it is a
/// JSON number within the limits and the result fits in an `i64`.
pub open spec fn scaled_number(t: Seq<char>, scale: nat) -> Option<i64> {
    if is_json_number(t) && within_limits(t) && i64::MIN <= scaled_value(t, scale) <= i64::MAX {
        Some(scaled_value(t, scale) as i64)
    } else {
        None
    }
}

fn find_byte(bytes: &[u8], from: usize, a: u8, b: u8, Ghost(t): Ghost<Seq<char>>, Ghost(ca): Ghost<char>, Ghost(cb): Ghost<char>) -> (r: usize)
    requires
        bytes_match(bytes@, t),
        a as int == ca as int,
        b as int == cb as int,
        from <= t.len(),
    ensures
        r as int == find_either(t, from as int, ca, cb),
        from <= r <= t.len(),
{
    let mut i: usize = from;
    while i < bytes.len()
        invariant
            bytes_match(bytes@, t),
            a as int == ca as int,
            b as int == cb as int,
            from <= i <= t.len(),
            find_either(t, from as int, ca, cb) == find_either(t, i as int, ca, cb),
        decreases t.len() - i,
    {
        let c = bytes[i];
        assert(c as int == t[i as int] as int);
        if c == a || c == b {
            return i;
        }
        i = i + 1;
    }
    i
}

proof fn lemma_digits_push(pre: Seq<char>, t: Seq<char>, from: int, i: int)
    requires
        0 <= from <= i < t.len(),
    ensures
        digits_value(pre + t.subrange(from, i + 1)) == digits_value(pre + t.subrange(from, i)) * 10 + (
        t[i] as int - '0' as int),
{
    let longer = pre + t.subrange(from, i + 1);
    assert(longer.drop_last() =~= pre + t.subrange(from, i));
    assert(longer.last() == t[i]);
}

proof fn lemma_digits_grow(pre: Seq<char>, t: Seq<char>, from: int, i: int, to: int)
    requires
        0 <= from <= i <= to <= t.len(),
        all_digits(t.subrange(from, to)),
        digits_value(pre + t.subrange(from, i)) >= 0,
    ensures
        digits_value(pre + t.subrange(from, i)) <= digits_value(pre + t.subrange(from, to)),
    decreases to - i,
{
    if i < to {
        lemma_digits_push(pre, t, from, i);
        assert(t.subrange(from, to)[i - from] == t[i]);
        lemma_digits_grow(pre, t, from, i + 1, to);
    }
}

proof fn lemma_digits_nonneg(s: Seq<char>)
    requires
        all_digits(s),
    ensures
        digits_value(s) >= 0,
    decreases s.len(),
{
    if s.len() > 0 {
        assert(all_digits(s.drop_last())) by {
            assert forall|i: int| 0 <= i < s.drop_last().len() implies is_digit(#[trigger] s.drop_last()[i]) by {
                assert(s.drop_last()[i] == s[i]);
            }
        }
        lemma_digits_nonneg(s.drop_last());
        assert(is_digit(s[s.len() - 1]));
    }
}

/// Reads the digits `t[from..to]` after those of `pre`, whose value is `start`.
fn read_digits(bytes: &[u8], from: usize, to: usize, start: u64, Ghost(t): Ghost<Seq<char>>, Ghost(pre): Ghost<Seq<char>>) -> (r: Option<u64>)
    requires
        bytes_match(bytes@, t),
        from <= to <= t.len(),
        all_digits(pre),
        start as int == digits_value(pre),
    ensures
        r == (if all_digits(t.subrange(from as int, to as int)) && digits_value(pre + t.subrange(from as int, to as int)) <= u64::MAX {
            Some(digits_value(pre + t.subrange(from as int, to as int)) as u64)
        } else {
            None
        }),
        r is Some ==> r->Some_0 as int == digits_value(pre + t.subrange(from as int, to as int)),
{
    let mut acc: u64 = start;
    let mut i: usize = from;
    assert(pre + t.subrange(from as int, from as int) =~= pre);
    while i < to
        invariant
            bytes_match(bytes@, t),
            from <= i <= to <= t.len(),
            all_digits(pre),
            all_digits(t.subrange(from as int, i as int)),
            acc as int == digits_value(pre + t.subrange(from as int, i as int)),
        decreases to - i,
    {
        let c = bytes[i];
        assert(bytes@[i as int] as int == t[i as int] as int);
        if c < 48 || c > 57 {
            proof {
                assert(t.subrange(from as int, to as int)[i - from] == t[i as int]);
            }
            return None;
        }
        proof {
            lemma_digits_push(pre, t, from as int, i as int);
        }
        let next: u128 = acc as u128 * 10 + (c - 48) as u128;
        if next > u64::MAX as u128 {
            proof {
                if all_digits(t.subrange(from as int, to as int)) {
                    assert(all_digits(pre + t.subrange(from as int, i as int + 1)));
                    lemma_digits_nonneg(pre + t.subrange(from as int, i as int + 1));
                    assert forall|k: int| 0 <= k < to - from implies is_digit(
                        #[trigger] t.subrange(from as int, to as int)[k],
                    ) by {}
                    lemma_digits_grow(pre, t, from as int, i as int + 1, to as int);
                }
            }
            return None;
        }
        acc = next as u64;
        proof {
            assert forall|k: int| 0 <= k < i + 1 - from implies is_digit(
                #[trigger] t.subrange(from as int, i as int + 1)[k],
            ) by {
                if k < i - from {
                    assert(t.subrange(from as int, i as int + 1)[k] == t.subrange(from as int, i as int)[k]);
                }
            }
        }
        i = i + 1;
    }
    proof {
        assert(all_digits(pre + t.subrange(from as int, to as int)));
        lemma_digits_nonneg(pre + t.subrange(from as int, to as int));
    }
    Some(acc)
}

proof fn lemma_mul_at_least(a: int, b: int, c: int)
    requires
        a >= 1,
        b >= c >= 0,
    ensures
        a * b >= c,
{
    assert(a * b >= 1 * b) by (nonlinear_arith)
        requires
            a >= 1,
            b >= 0,
    ;
}

proof fn lemma_pow10_mono(a: nat, b: nat)
    requires
        a <= b,
    ensures
        1 <= pow10(a) <= pow10(b),
    decreases b,
{
    if a < b {
        lemma_pow10_mono(a, (b - 1) as nat);
    } else {
        lemma_pow10_pos(a);
    }
}

proof fn lemma_pow10_pos(n: nat)
    ensures
        pow10(n) >= 1,
    decreases n,
{
    if n > 0 {
        lemma_pow10_pos((n - 1) as nat);
    }
}

proof fn lemma_pow10_table()
    ensures
        pow10(19) == 10000000000000000000,
        pow10(20) == 100000000000000000000,
        pow10(39) == 1000000000000000000000000000000000000000,
{
    reveal_with_fuel(pow10, 40);
}

fn pow10_exec(k: u32) -> (r: u128)
    requires
        k <= 38,
    ensures
        r as int == pow10(k as nat),
{
    let mut r: u128 = 1;
    let mut i: u32 = 0;
    while i < k
        invariant
            i <= k <= 38,
            r as int == pow10(i as nat),
        decreases k - i,
    {
        proof {
            lemma_pow10_mono((i + 1) as nat, 38);
            reveal_with_fuel(pow10, 39);
        }
        r = r * 10;
        i = i + 1;
    }
    r
}

/// Reads the JSON number `text` as an integer count of `10^-scale` units, truncated
/// toward zero; `None` where the text is no JSON number, its digits overflow a
/// `u64`, or the result leaves the `i64` range.
pub fn parse_fixed(text: &str, scale: u32) -> (r: Option<i64>)
    ensures
        r == scaled_number(text@, scale as nat),
{
    let ghost t = text@;
    if !text.is_ascii() {
        return None;
    }
    let bytes = text.as_bytes();
    proof {
        broadcast use vstd::string::is_ascii_spec_bytes;

        assert(bytes_match(bytes@, t));
    }
    let n = bytes.len();
    let s0: usize = if n > 0 && bytes[0] == 45 {
        1
    } else {
        0
    };
    assert(s0 as int == sign_len(t)) by {
        if n > 0 {
            assert(bytes@[0] as int == t[0] as int);
        }
    }
    let e = find_byte(bytes, s0, 101, 69, Ghost(t), Ghost('e'), Ghost('E'));
    let d = find_byte(bytes, s0, 46, 46, Ghost(t), Ghost('.'), Ghost('.'));
    let int_end = if d < e {
        d
    } else {
        e
    };
    if int_end <= s0 {
        return None;
    }
    let ghost ints = int_digits(t);
    let ghost fracs = frac_digits(t);
    assert(Seq::<char>::empty() + t.subrange(s0 as int, int_end as int) =~= ints);
    let m0 = match read_digits(bytes, s0, int_end, 0, Ghost(t), Ghost(Seq::empty())) {
        Some(v) => v,
        None => {
            proof {
                if is_json_number(t) {
                    lemma_digits_nonneg(ints);
                    if has_fraction(t) {
                        lemma_digits_grow(ints, t, d + 1, d + 1, e as int);
                        assert(ints + t.subrange(d + 1, d + 1) =~= ints);
                    } else {
                        assert(ints + fracs =~= ints);
                    }
                }
            }
            return None;
        },
    };
    let m: u64;
    let frac_len: usize;
    if d < e {
        if e <= d + 1 {
            return None;
        }
        proof {
            lemma_digits_nonneg(ints);
        }
        assert(fracs == t.subrange(d + 1, e as int));
        match read_digits(bytes, d + 1, e, m0, Ghost(t), Ghost(ints)) {
            Some(v) => {
                m = v;
                assert(m as int == mantissa(t));
            },
            None => {
                return None;
            },
        }
        frac_len = e - d - 1;
    } else {
        assert(ints + fracs =~= ints);
        m = m0;
        assert(m as int == mantissa(t));
        frac_len = 0;
    }
    assert(m as int == mantissa(t));
    assert(frac_len as int == fracs.len());
    let mut neg_exp = false;
    let mut ev: u64 = 0;
    if e < n {
        let mut j = e + 1;
        if j < n && bytes[j] == 45 {
            neg_exp = true;
        }
        if j < n && (bytes[j] == 45 || bytes[j] == 43) {
            j = j + 1;
        }
        proof {
            if e + 1 < n {
                assert(bytes@[e + 1] as int == t[e + 1] as int);
            }
        }
        assert(neg_exp == exp_negative(t));
        assert(j as int == exp_at(t) + 1 + exp_sign_len(t));
        if j >= n {
            return None;
        }
        assert(Seq::<char>::empty() + t.subrange(j as int, n as int) =~= exp_digits(t));
        ev = match read_digits(bytes, j, n, 0, Ghost(t), Ghost(Seq::empty())) {
            Some(v) => v,
            None => {
                return None;
            },
        };
    } else {
        assert(exp_digits(t) =~= Seq::<char>::empty());
        assert(!exp_negative(t));
    }
    assert(ev as int == digits_value(exp_digits(t)));
    let k: i128 = (if neg_exp {
        -(ev as i128)
    } else {
        ev as i128
    }) - frac_len as i128 + scale as i128;
    assert(k == exponent(t) + scale);
    fixed_from_parts(s0 == 1, m, k)
}

/// `m * 10^k`, truncated toward zero, negated where `negative`.
pub open spec fn shifted(negative: bool, m: int, k: int) -> int {
    let v = if k >= 0 {
        m * pow10(k as nat)
    } else {
        m / pow10((-k) as nat)
    };
    if negative {
        -v
    } else {
        v
    }
}

fn fixed_from_parts(negative: bool, m: u64, k: i128) -> (r: Option<i64>)
    requires
        k > i128::MIN,
    ensures
        r == (if i64::MIN <= shifted(negative, m as int, k as int) <= i64::MAX {
            Some(shifted(negative, m as int, k as int) as i64)
        } else {
            None
        }),
{
    proof {
        lemma_pow10_table();
    }
    let mag: u128;
    if k >= 0 {
        if m == 0 {
            mag = 0;
            assert(0 * pow10(k as nat) == 0) by (nonlinear_arith);
        } else if k > 19 {
            proof {
                lemma_pow10_mono(20, k as nat);
                lemma_mul_at_least(m as int, pow10(k as nat), pow10(20));
            }
            return None;
        } else {
            let p = pow10_exec(k as u32);
            proof {
                lemma_pow10_mono(k as nat, 19);
                assert(m * p <= u64::MAX * pow10(19)) by (nonlinear_arith)
                    requires
                        m <= u64::MAX,
                        p <= pow10(19),
                ;
            }
            mag = m as u128 * p;
        }
        assert(mag as int == (m as int) * pow10(k as nat));
    } else {
        let j = -k;
        if j > 38 {
            proof {
                lemma_pow10_mono(39, j as nat);
                assert((m as int) / pow10(j as nat) == 0) by (nonlinear_arith)
                    requires
                        0 <= m < pow10(j as nat),
                ;
            }
            mag = 0;
        } else {
            let p = pow10_exec(j as u32);
            proof {
                lemma_pow10_pos(j as nat);
            }
            mag = m as u128 / p;
        }
        assert(mag as int == (m as int) / pow10(j as nat));
    }
    if negative {
        if mag > 0x8000000000000000 {
            return None;
        }
        Some((0 - mag as i128) as i64)
    } else {
        if mag > 0x7fffffffffffffff {
            return None;
        }
        Some(mag as i64)
    }
}

} // verus!
