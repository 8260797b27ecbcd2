use vstd::prelude::*;
use crate::text::chars_of;

verus! {

/// Why a text is not a length.
#[derive(Copy, Clone, Debug, PartialEq, Eq, Structural)]
pub enum LengthError {
    /// The text is empty.
    Empty,
    /// The text is not a number.
    Invalid,
    /// The text is a number, but infinite, not a number (`NaN`), or beyond
    /// what 64 bits of millimetres hold.
    Unrepresentable,
}

pub open spec fn is_digit(c: char) -> bool {
    '0' <= c && c <= '9'
}

pub open spec fn digit_value(c: char) -> int {
    (c as int) - ('0' as int)
}

pub open spec fn all_digits(s: Seq<char>) -> bool {
    forall|i: int| 0 <= i < s.len() ==> is_digit(#[trigger] s[i])
}

/// The value of a string of decimal digits, most significant first.
pub open spec fn digits_value(s: Seq<char>) -> int
    decreases s.len(),
{
    if s.len() == 0 {
        0
    } else {
        digits_value(s.drop_last()) * 10 + digit_value(s.last())
    }
}

/// The number of decimal digits that `s` starts with.
pub open spec fn leading_digits(s: Seq<char>) -> nat
    decreases s.len(),
{
    if s.len() > 0 && is_digit(s[0]) {
        1 + leading_digits(s.drop_first())
    } else {
        0
    }
}

/// `s` without its leading sign, if it has one.
pub open spec fn unsigned_part(s: Seq<char>) -> Seq<char> {
    if s.len() > 0 && (s[0] == '+' || s[0] == '-') {
        s.drop_first()
    } else {
        s
    }
}

/// Whether `s` starts with a minus sign.
pub open spec fn is_negative(s: Seq<char>) -> bool {
    s.len() > 0 && s[0] == '-'
}

/// Ten to the power `n`.
pub open spec fn pow10(n: nat) -> int
    decreases n,
{
    if n == 0 {
        1
    } else {
        10 * pow10((n - 1) as nat)
    }
}

/// The digits before the decimal point of an unsigned number text.
pub open spec fn int_digits(body: Seq<char>) -> Seq<char> {
    body.take(leading_digits(body) as int)
}

/// What follows the digits before the decimal point.
pub open spec fn after_int(body: Seq<char>) -> Seq<char> {
    body.skip(leading_digits(body) as int)
}

/// Whether the digits before the decimal point are followed by a point.
pub open spec fn has_point(body: Seq<char>) -> bool {
    after_int(body).len() > 0 && after_int(body)[0] == '.'
}

/// The digits after the decimal point.
pub open spec fn frac_digits(body: Seq<char>) -> Seq<char> {
    if has_point(body) {
        let r = after_int(body).drop_first();
        r.take(leading_digits(r) as int)
    } else {
        Seq::empty()
    }
}

/// What follows the digits of the mantissa: the exponent part, if any.
pub open spec fn exp_part(body: Seq<char>) -> Seq<char> {
    if has_point(body) {
        let r = after_int(body).drop_first();
        r.skip(leading_digits(r) as int)
    } else {
        after_int(body)
    }
}

/// Whether `e` is empty or an exponent: `e` or `E`, a sign if any, and at
/// least one digit.
pub open spec fn exp_ok(e: Seq<char>) -> bool {
    e.len() == 0 || ((e[0] == 'e' || e[0] == 'E') && unsigned_part(e.drop_first()).len() > 0
        && all_digits(unsigned_part(e.drop_first())))
}

/// The value of an exponent part (0 when there is none).
pub open spec fn exp_value(e: Seq<char>) -> int {
    if e.len() == 0 {
        0
    } else {
        let mag = digits_value(unsigned_part(e.drop_first()));
        if is_negative(e.drop_first()) {
            -mag
        } else {
            mag
        }
    }
}

/// Whether an unsigned text is a number: digits, a point and digits (at
/// least one digit in all), then an exponent if any.
pub open spec fn is_number(body: Seq<char>) -> bool {
    &&& int_digits(body).len() + frac_digits(body).len() >= 1
    &&& exp_ok(exp_part(body))
}

/// `m` times ten to the power `s`, rounded to a whole number, halves away
/// from zero (`m` is not negative).
pub open spec fn round_scaled(m: int, s: int) -> int {
    if s >= 0 {
        m * pow10(s as nat)
    } else {
        let p = pow10((-s) as nat);
        m / p + (if 2 * (m % p) >= p {
            1int
        } else {
            0int
        })
    }
}

/// The value of a number text in millimetres (the text being in metres),
/// rounded to the nearest millimetre, halves away from zero.
pub open spec fn number_mm(s: Seq<char>) -> int {
    let body = unsigned_part(s);
    let magnitude = round_scaled(
        digits_value(int_digits(body) + frac_digits(body)),
        exp_value(exp_part(body)) + 3 - frac_digits(body).len(),
    );
    if is_negative(s) {
        -magnitude
    } else {
        magnitude
    }
}

/// Whether each character of `s` is the one of `lower` or of `upper` at
/// its place (the two spellings of one word in lower and upper case).
pub open spec fn matches_word(s: Seq<char>, lower: Seq<char>, upper: Seq<char>) -> bool {
    s.len() == lower.len() && s.len() == upper.len() && forall|i: int|
        0 <= i < s.len() ==> (#[trigger] s[i] == lower[i] || s[i] == upper[i])
}

/// Whether an unsigned text names infinity or `NaN`, in any case.
pub open spec fn is_special(body: Seq<char>) -> bool {
    ||| matches_word(body, seq!['i', 'n', 'f'], seq!['I', 'N', 'F'])
    ||| matches_word(
        body,
        seq!['i', 'n', 'f', 'i', 'n', 'i', 't', 'y'],
        seq!['I', 'N', 'F', 'I', 'N', 'I', 'T', 'Y'],
    )
    ||| matches_word(body, seq!['n', 'a', 'n'], seq!['N', 'A', 'N'])
}

pub open spec fn fits_i64(x: int) -> bool {
    i64::MIN <= x && x <= i64::MAX
}

/// What `parse_length` gives for a text: the texts that `str::parse::<f64>`
/// reads (a sign if any, then digits with a point somewhere and an exponent
/// if any, or `inf`, `infinity`, `NaN` in any case) are lengths; those whose
/// value is finite and fits are given in millimetres.
pub open spec fn spec_parse_length(s: Seq<char>) -> Result<i64, LengthError> {
    let body = unsigned_part(s);
    if s.len() == 0 {
        Err(LengthError::Empty)
    } else if is_number(body) {
        if fits_i64(number_mm(s)) {
            Ok(number_mm(s) as i64)
        } else {
            Err(LengthError::Unrepresentable)
        }
    } else if is_special(body) {
        Err(LengthError::Unrepresentable)
    } else {
        Err(LengthError::Invalid)
    }
}

proof fn lemma_leading_digits(s: Seq<char>, i: int)
    requires
        0 <= i <= s.len(),
        forall|j: int| 0 <= j < i ==> is_digit(#[trigger] s[j]),
        i == s.len() || !is_digit(s[i]),
    ensures
        leading_digits(s) == i,
    decreases i,
{
    if i > 0 {
        assert forall|j: int| 0 <= j < i - 1 implies is_digit(#[trigger] s.drop_first()[j]) by {
            assert(s.drop_first()[j] == s[j + 1]);
        }
        if i < s.len() {
            assert(s.drop_first()[i - 1] == s[i]);
        }
        lemma_leading_digits(s.drop_first(), i - 1);
    }
}

proof fn lemma_digits_value_nonneg(s: Seq<char>)
    requires
        all_digits(s),
    ensures
        digits_value(s) >= 0,
    decreases s.len(),
{
    if s.len() > 0 {
        assert(all_digits(s.drop_last())) by {
            assert forall|i: int| 0 <= i < s.drop_last().len() implies is_digit(
                #[trigger] s.drop_last()[i],
            ) by {
                assert(s.drop_last()[i] == s[i]);
            }
        }
        assert(is_digit(s[s.len() - 1]));
        lemma_digits_value_nonneg(s.drop_last());
    }
}

proof fn lemma_pow10_pos(n: nat)
    ensures
        pow10(n) >= 1,
    decreases n,
{
    if n > 0 {
        lemma_pow10_pos((n - 1) as nat);
    }
}

proof fn lemma_pow10_ge(n: nat)
    ensures
        pow10(n) >= n + 1,
    decreases n,
{
    if n > 0 {
        lemma_pow10_ge((n - 1) as nat);
    }
}

proof fn lemma_pow10_mono(a: nat, b: nat)
    requires
        a <= b,
    ensures
        pow10(a) <= pow10(b),
    decreases b,
{
    if a < b {
        lemma_pow10_mono(a, (b - 1) as nat);
        lemma_pow10_pos((b - 1) as nat);
    }
}

proof fn lemma_digits_value_concat(a: Seq<char>, b: Seq<char>)
    ensures
        digits_value(a + b) == digits_value(a) * pow10(b.len()) + digits_value(b),
    decreases b.len(),
{
    if b.len() == 0 {
        assert(a + b =~= a);
    } else {
        let b1 = b.drop_last();
        assert((a + b).drop_last() =~= a + b1);
        assert((a + b).last() == b.last());
        lemma_digits_value_concat(a, b1);
        let x = digits_value(a);
        let p = pow10(b1.len());
        let y = digits_value(b1);
        assert(pow10(b.len()) == 10 * p);
        assert((x * p + y) * 10 + digit_value(b.last()) == x * (10 * p) + (y * 10 + digit_value(
            b.last(),
        ))) by (nonlinear_arith);
    }
}

proof fn lemma_digits_value_bound(b: Seq<char>)
    requires
        all_digits(b),
    ensures
        0 <= digits_value(b) < pow10(b.len()),
    decreases b.len(),
{
    if b.len() > 0 {
        let b1 = b.drop_last();
        assert(all_digits(b1)) by {
            assert forall|i: int| 0 <= i < b1.len() implies is_digit(#[trigger] b1[i]) by {
                assert(b1[i] == b[i]);
            }
        }
        assert(is_digit(b[b.len() - 1]));
        lemma_digits_value_bound(b1);
        let y = digits_value(b1);
        let p = pow10(b1.len());
        let d = digit_value(b.last());
        assert(0 <= y * 10 + d < 10 * p) by (nonlinear_arith)
            requires
                0 <= y < p,
                0 <= d <= 9,
        ;
    }
}

/// Dropping the last `b.len()` digits of `a + b` with rounding leaves the
/// value of `a`, plus one if the first dropped digit is 5 or more.
proof fn lemma_round_split(a: Seq<char>, b: Seq<char>)
    requires
        all_digits(a),
        all_digits(b),
        b.len() >= 1,
    ensures
        round_scaled(digits_value(a + b), -(b.len() as int)) == digits_value(a) + (if digit_value(
            b[0],
        ) >= 5 {
            1int
        } else {
            0int
        }),
{
    let k = b.len();
    let p = pow10(k);
    let m = digits_value(a + b);
    let r = digits_value(b);
    let q = digits_value(a);
    lemma_digits_value_concat(a, b);
    lemma_digits_value_bound(b);
    lemma_pow10_pos(k);
    vstd::arithmetic::div_mod::lemma_fundamental_div_mod_converse(m, p, q, r);
    let rest = b.drop_first();
    assert(b =~= seq![b[0]] + rest);
    lemma_digits_value_concat(seq![b[0]], rest);
    assert(seq![b[0]].drop_last() =~= Seq::<char>::empty());
    assert(seq![b[0]].last() == b[0]);
    assert(digits_value(Seq::<char>::empty()) == 0);
    assert(digits_value(seq![b[0]]) == digit_value(b[0])) by {
        reveal_with_fuel(digits_value, 2);
    }
    assert(all_digits(rest)) by {
        assert forall|i: int| 0 <= i < rest.len() implies is_digit(#[trigger] rest[i]) by {
            assert(rest[i] == b[i + 1]);
        }
    }
    lemma_digits_value_bound(rest);
    let p1 = pow10(rest.len());
    assert(p == 10 * p1);
    let d0 = digit_value(b[0]);
    assert(is_digit(b[0]));
    let r1 = digits_value(rest);
    assert(r == d0 * p1 + r1);
    assert((2 * r >= p) == (d0 >= 5)) by (nonlinear_arith)
        requires
            r == d0 * p1 + r1,
            0 <= r1 < p1,
            p == 10 * p1,
            0 <= d0 <= 9,
    ;
}

/// A value below `10^l` rounds to 0 when more than `l` digits are dropped.
proof fn lemma_round_small(m: int, l: nat, k: nat)
    requires
        0 <= m < pow10(l),
        l < k,
    ensures
        round_scaled(m, -(k as int)) == 0,
{
    lemma_pow10_mono(l + 1, k);
    let p = pow10(k);
    assert(pow10(l + 1) == 10 * pow10(l));
    vstd::arithmetic::div_mod::lemma_fundamental_div_mod_converse(m, p, 0, m);
}

/// The end of the run of digits of `v` that starts at `from`.
fn digit_run(v: &Vec<char>, from: usize) -> (r: usize)
    requires
        from <= v@.len(),
    ensures
        from <= r <= v@.len(),
        forall|j: int| from <= j < r ==> is_digit(#[trigger] v@[j]),
        r == v@.len() || !is_digit(v@[r as int]),
        leading_digits(v@.skip(from as int)) == r - from,
{
    let n: usize = v.len();
    let mut i: usize = from;
    while i < n && '0' <= v[i] && v[i] <= '9'
        invariant
            n == v@.len(),
            from <= i <= n,
            forall|j: int| from <= j < i ==> is_digit(#[trigger] v@[j]),
        decreases n - i,
    {
        i = i + 1;
    }
    proof {
        let body = v@.skip(from as int);
        assert forall|j: int| 0 <= j < i - from implies is_digit(#[trigger] body[j]) by {
            assert(body[j] == v@[from + j]);
        }
        if i < n {
            assert(body[i - from] == v@[i as int]);
        }
        lemma_leading_digits(body, i - from);
    }
    i
}

pub const DIGITS_CAP: u128 = 1_000_000_000_000_000_000_000_000_000_000u128;

/// The value of the digits `d[from..to]`, when it is at most about
/// `10 * DIGITS_CAP`; `None` when it is above `DIGITS_CAP`.
fn capped_value(d: &Vec<char>, from: usize, to: usize) -> (r: Option<u128>)
    requires
        from <= to <= d@.len(),
        forall|j: int| from <= j < to ==> is_digit(#[trigger] d@[j]),
    ensures
        r matches Some(x) ==> x == digits_value(d@.subrange(from as int, to as int)) && x <= 10
            * DIGITS_CAP + 9,
        r is None ==> digits_value(d@.subrange(from as int, to as int)) > DIGITS_CAP,
{
    let mut i: usize = from;
    let mut value: u128 = 0;
    let mut big = false;
    while i < to
        invariant
            from <= i <= to <= d@.len(),
            forall|j: int| from <= j < to ==> is_digit(#[trigger] d@[j]),
            !big ==> value == digits_value(d@.subrange(from as int, i as int)),
            !big ==> value <= 10 * DIGITS_CAP + 9,
            big ==> digits_value(d@.subrange(from as int, i as int)) > DIGITS_CAP,
        decreases to - i,
    {
        let c = d[i];
        let dv: u128 = (c as u32 - '0' as u32) as u128;
        proof {
            let t = d@.subrange(from as int, i + 1);
            assert(t.drop_last() =~= d@.subrange(from as int, i as int));
            assert(t.last() == c);
            assert(is_digit(d@[i as int]));
            assert(all_digits(t.drop_last())) by {
                assert forall|m: int| 0 <= m < t.drop_last().len() implies is_digit(
                    #[trigger] t.drop_last()[m],
                ) by {
                    assert(t.drop_last()[m] == d@[from + m]);
                }
            }
            lemma_digits_value_nonneg(t.drop_last());
        }
        if big {
        } else if value > DIGITS_CAP {
            big = true;
        } else {
            value = value * 10 + dv;
        }
        i = i + 1;
    }
    if big {
        None
    } else {
        Some(value)
    }
}

/// Appends `v[from..to]` to `dst`.
fn push_range(dst: &mut Vec<char>, v: &Vec<char>, from: usize, to: usize)
    requires
        from <= to <= v@.len(),
    ensures
        final(dst)@ == old(dst)@ + v@.subrange(from as int, to as int),
{
    let mut i: usize = from;
    while i < to
        invariant
            from <= i <= to <= v@.len(),
            dst@ == old(dst)@ + v@.subrange(from as int, i as int),
        decreases to - i,
    {
        dst.push(v[i]);
        assert(old(dst)@ + v@.subrange(from as int, i + 1) =~= old(dst)@ + v@.subrange(
            from as int,
            i as int,
        ) + seq![v@[i as int]]);
        i = i + 1;
    }
}

/// Whether `v[from..]` is the word spelt `lower` or `upper` at each place.
fn matches_word_at(v: &Vec<char>, from: usize, lower: &Vec<char>, upper: &Vec<char>) -> (r: bool)
    requires
        from <= v@.len(),
    ensures
        r == matches_word(v@.skip(from as int), lower@, upper@),
{
    let ghost s = v@.skip(from as int);
    if v.len() - from != lower.len() || lower.len() != upper.len() {
        return false;
    }
    let k: usize = lower.len();
    let mut i: usize = 0;
    while i < k
        invariant
            s == v@.skip(from as int),
            s.len() == lower@.len(),
            k == lower@.len(),
            k == upper@.len(),
            from + k == v@.len(),
            v.len() == v@.len(),
            i <= k,
            forall|j: int| 0 <= j < i ==> (#[trigger] s[j] == lower@[j] || s[j] == upper@[j]),
        decreases k - i,
    {
        let c = v[from + i];
        assert(s[i as int] == c);
        if !(c == lower[i] || c == upper[i]) {
            return false;
        }
        i = i + 1;
    }
    true
}

/// The digits `d` (read as a whole number), times ten to the power
/// `e + 3 - frac_len`, rounded; `None` when that is above `2^63 + 1`.
/// `exp` is `e` unless `e` is beyond `DIGITS_CAP` in size, when it is
/// `None` and `exp_negative` tells its sign.
fn round_magnitude(
    d: &Vec<char>,
    frac_len: usize,
    exp: Option<i128>,
    exp_negative: bool,
    Ghost(e): Ghost<int>,
) -> (r: Option<u128>)
    requires
        all_digits(d@),
        frac_len <= d@.len(),
        exp matches Some(x) ==> x == e && -(10 * DIGITS_CAP + 9) <= x <= 10 * DIGITS_CAP + 9,
        exp is None ==> (exp_negative ==> e < -DIGITS_CAP) && (!exp_negative ==> e > DIGITS_CAP),
    ensures
        r matches Some(x) ==> x == round_scaled(digits_value(d@), e + 3 - frac_len) && x <= 10
            * DIGITS_CAP + 10,
        r is None ==> round_scaled(digits_value(d@), e + 3 - frac_len) > i64::MAX + 1,
{
    let l: usize = d.len();
    let ghost m = digits_value(d@);
    let ghost s = e + 3 - frac_len;
    proof {
        assert(d@.subrange(0, l as int) =~= d@);
        lemma_digits_value_bound(d@);
    }
    match exp {
        None => {
            if exp_negative {
                proof {
                    assert(l <= usize::MAX);
                    assert(-s > l);
                    lemma_round_small(m, l as nat, (-s) as nat);
                    assert(round_scaled(m, s) == 0);
                }
                Some(0)
            } else {
                proof {
                    lemma_pow10_ge(s as nat);
                    lemma_pow10_pos(s as nat);
                }
                match capped_value(d, 0, l) {
                    Some(0) => {
                        assert(m == 0);
                        assert(0 * pow10(s as nat) == 0);
                        Some(0)
                    },
                    _ => {
                        proof {
                            assert(m >= 1);
                            assert(m * pow10(s as nat) >= pow10(s as nat)) by (nonlinear_arith)
                                requires
                                    m >= 1,
                                    pow10(s as nat) >= 1,
                            ;
                        }
                        None
                    },
                }
            }
        },
        Some(x) => {
            let sc: i128 = x + 3 - frac_len as i128;
            if sc >= 0 {
                match capped_value(d, 0, l) {
                    None => {
                        proof {
                            lemma_pow10_pos(s as nat);
                            assert(m * pow10(s as nat) >= m) by (nonlinear_arith)
                                requires
                                    m >= 0,
                                    pow10(s as nat) >= 1,
                            ;
                        }
                        None
                    },
                    Some(mv) => {
                        if mv == 0 {
                            assert(0 * pow10(s as nat) == 0);
                            return Some(0);
                        }
                        assert(pow10(0) == 1);
                        let mut val: u128 = mv;
                        let mut t: i128 = 0;
                        while t < sc && val <= 18_446_744_073_709_551_616u128
                            invariant
                                0 <= t <= sc,
                                sc == s,
                                mv == m,
                                mv >= 1,
                                val == m * pow10(t as nat),
                                val <= 10 * DIGITS_CAP + 9 || t == 0,
                                val <= 10 * DIGITS_CAP + 9,
                            decreases sc - t,
                        {
                            proof {
                                assert(pow10((t + 1) as nat) == 10 * pow10(t as nat));
                                assert(m * (10 * pow10(t as nat)) == (m * pow10(t as nat)) * 10)
                                    by (nonlinear_arith);
                            }
                            val = val * 10;
                            t = t + 1;
                        }
                        if t < sc {
                            proof {
                                lemma_pow10_mono(t as nat, s as nat);
                                assert(m * pow10(s as nat) >= m * pow10(t as nat)) by (
                                nonlinear_arith)
                                    requires
                                        m >= 1,
                                        pow10(s as nat) >= pow10(t as nat),
                                ;
                            }
                            None
                        } else {
                            Some(val)
                        }
                    },
                }
            } else {
                let k: i128 = -sc;
                if k > l as i128 {
                    proof {
                        lemma_round_small(m, l as nat, k as nat);
                    }
                    Some(0)
                } else {
                    let split: usize = l - k as usize;
                    let a = Ghost(d@.take(split as int));
                    let b = Ghost(d@.skip(split as int));
                    proof {
                        assert(d@ =~= a@ + b@);
                        assert(all_digits(a@)) by {
                            assert forall|i: int| 0 <= i < a@.len() implies is_digit(#[trigger] a@[i]) by {
                                assert(a@[i] == d@[i]);
                            }
                        }
                        assert(all_digits(b@)) by {
                            assert forall|i: int| 0 <= i < b@.len() implies is_digit(#[trigger] b@[i]) by {
                                assert(b@[i] == d@[split + i]);
                            }
                        }
                        lemma_round_split(a@, b@);
                        assert(b@[0] == d@[split as int]);
                        assert(d@.subrange(0, split as int) =~= a@);
                    }
                    let up: u128 = if d[split] >= '5' { 1 } else { 0 };
                    match capped_value(d, 0, split) {
                        None => {
                            proof {
                                lemma_digits_value_bound(b@);
                            }
                            None
                        },
                        Some(q) => Some(q + up),
                    }
                }
            }
        },
    }
}

/// Reads the mantissa of the unsigned number text `v[start..]`: its digits
/// before and after the decimal point, how many are after it, and where the
/// exponent part begins.
fn read_mantissa(v: &Vec<char>, start: usize) -> (r: (Vec<char>, usize, usize))
    requires
        start <= v@.len(),
    ensures
        r.0@ == int_digits(v@.skip(start as int)) + frac_digits(v@.skip(start as int)),
        all_digits(r.0@),
        r.1 == frac_digits(v@.skip(start as int)).len(),
        r.1 <= r.0@.len(),
        start <= r.2 <= v@.len(),
        exp_part(v@.skip(start as int)) == v@.skip(r.2 as int),
{
    let ghost body = v@.skip(start as int);
    let n: usize = v.len();
    let i1 = digit_run(v, start);
    assert(int_digits(body) =~= v@.subrange(start as int, i1 as int));
    assert(after_int(body) =~= v@.skip(i1 as int));
    let mut digits: Vec<char> = Vec::new();
    push_range(&mut digits, v, start, i1);
    if i1 < n && v[i1] == '.' {
        assert(after_int(body)[0] == v@[i1 as int]);
        let i2 = digit_run(v, i1 + 1);
        assert(after_int(body).drop_first() =~= v@.skip(i1 + 1));
        assert(frac_digits(body) =~= v@.subrange(i1 + 1, i2 as int));
        assert(exp_part(body) =~= v@.skip(i2 as int));
        push_range(&mut digits, v, i1 + 1, i2);
        assert(digits@ =~= int_digits(body) + frac_digits(body));
        assert(all_digits(digits@)) by {
            assert forall|m: int| 0 <= m < digits@.len() implies is_digit(#[trigger] digits@[m]) by {
                if m < i1 - start {
                    assert(digits@[m] == v@[start + m]);
                } else {
                    assert(digits@[m] == v@[i1 + 1 + (m - (i1 - start))]);
                }
            }
        }
        (digits, i2 - i1 - 1, i2)
    } else {
        if i1 < n {
            assert(after_int(body)[0] == v@[i1 as int]);
        }
        assert(frac_digits(body) =~= Seq::<char>::empty());
        assert(exp_part(body) =~= v@.skip(i1 as int));
        assert(digits@ =~= int_digits(body) + frac_digits(body));
        assert(all_digits(digits@)) by {
            assert forall|m: int| 0 <= m < digits@.len() implies is_digit(#[trigger] digits@[m]) by {
                assert(digits@[m] == v@[start + m]);
            }
        }
        (digits, 0, i1)
    }
}

/// Reads the exponent part `v[p..]`: whether it is empty or an exponent,
/// and its value, or (`None`) just its sign when it is beyond `DIGITS_CAP`
/// in size.
fn read_exponent(v: &Vec<char>, p: usize) -> (r: (bool, Option<i128>, bool))
    requires
        p <= v@.len(),
    ensures
        r.0 == exp_ok(v@.skip(p as int)),
        r.0 ==> (r.1 matches Some(x) ==> x == exp_value(v@.skip(p as int)) && -(10 * DIGITS_CAP
            + 9) <= x <= 10 * DIGITS_CAP + 9),
        r.0 ==> (r.1 is None ==> (r.2 ==> exp_value(v@.skip(p as int)) < -DIGITS_CAP) && (!r.2
            ==> exp_value(v@.skip(p as int)) > DIGITS_CAP)),
{
    let ghost ep = v@.skip(p as int);
    let n: usize = v.len();
    if p == n {
        return (true, Some(0), false);
    }
    assert(ep[0] == v@[p as int]);
    if !(v[p] == 'e' || v[p] == 'E') {
        return (false, None, false);
    }
    let mut q: usize = p + 1;
    let ghost t = ep.drop_first();
    assert(t =~= v@.skip(p + 1));
    let mut negative = false;
    if q < n && (v[q] == '+' || v[q] == '-') {
        assert(t[0] == v@[q as int]);
        negative = v[q] == '-';
        q = q + 1;
    }
    assert(unsigned_part(t) =~= v@.skip(q as int));
    assert(is_negative(t) == negative);
    let j = digit_run(v, q);
    if j == q || j != n {
        if j != n {
            assert(unsigned_part(t)[j - q] == v@[j as int]);
        }
        return (false, None, false);
    }
    assert(all_digits(unsigned_part(t))) by {
        assert forall|m: int| 0 <= m < unsigned_part(t).len() implies is_digit(
            #[trigger] unsigned_part(t)[m],
        ) by {
            assert(unsigned_part(t)[m] == v@[q + m]);
        }
    }
    assert(v@.subrange(q as int, n as int) =~= unsigned_part(t));
    match capped_value(v, q, n) {
        Some(x) => (true, Some(if negative { -(x as i128) } else { x as i128 }), negative),
        None => (true, None, negative),
    }
}

/// Whether `v[start..]` names infinity or `NaN`.
fn names_special(v: &Vec<char>, start: usize) -> (r: bool)
    requires
        start <= v@.len(),
    ensures
        r == is_special(v@.skip(start as int)),
{
    let inf = vec!['i', 'n', 'f'];
    let inf_u = vec!['I', 'N', 'F'];
    let infinity = vec!['i', 'n', 'f', 'i', 'n', 'i', 't', 'y'];
    let infinity_u = vec!['I', 'N', 'F', 'I', 'N', 'I', 'T', 'Y'];
    let nan = vec!['n', 'a', 'n'];
    let nan_u = vec!['N', 'A', 'N'];
    assert(inf@ =~= seq!['i', 'n', 'f']);
    assert(inf_u@ =~= seq!['I', 'N', 'F']);
    assert(infinity@ =~= seq!['i', 'n', 'f', 'i', 'n', 'i', 't', 'y']);
    assert(infinity_u@ =~= seq!['I', 'N', 'F', 'I', 'N', 'I', 'T', 'Y']);
    assert(nan@ =~= seq!['n', 'a', 'n']);
    assert(nan_u@ =~= seq!['N', 'A', 'N']);
    matches_word_at(v, start, &inf, &inf_u) || matches_word_at(v, start, &infinity, &infinity_u)
        || matches_word_at(v, start, &nan, &nan_u)
}

/// Reads a length in metres as `str::parse::<f64>` reads a number (a sign
/// if any, then digits with a decimal point somewhere and an exponent if
/// any) and gives it in millimetres, rounded to the nearest millimetre
/// (halves away from zero). Texts that name infinity or `NaN`, and numbers
/// beyond 64 bits of millimetres, are `Unrepresentable`.
pub fn parse_length(s: &str) -> (r: Result<i64, LengthError>)
    ensures
        r == spec_parse_length(s@),
{
    let v = chars_of(s);
    let n: usize = v.len();
    if n == 0 {
        return Err(LengthError::Empty);
    }
    let ghost body = unsigned_part(s@);
    let negative = v[0] == '-';
    let start: usize = if v[0] == '+' || v[0] == '-' { 1 } else { 0 };
    assert(body =~= v@.skip(start as int));
    assert(is_negative(s@) == negative);
    let (digits, frac_len, p) = read_mantissa(&v, start);
    let (exp_ok_, exp, exp_negative) = read_exponent(&v, p);
    if !exp_ok_ || digits.len() == 0 {
        if names_special(&v, start) {
            return Err(LengthError::Unrepresentable);
        }
        return Err(LengthError::Invalid);
    }
    let ghost e = exp_value(exp_part(body));
    match round_magnitude(&digits, frac_len, exp, exp_negative, Ghost(e)) {
        None => Err(LengthError::Unrepresentable),
        Some(x) => {
            let value: i128 = if negative { -(x as i128) } else { x as i128 };
            if value < i64::MIN as i128 || value > i64::MAX as i128 {
                Err(LengthError::Unrepresentable)
            } else {
                Ok(value as i64)
            }
        },
    }
}

/// The text given for a length that could not be read.
pub open spec fn length_error_text(e: LengthError) -> Seq<char> {
    match e {
        LengthError::Empty => "ParseFloatError { kind: Empty }"@,
        LengthError::Invalid => "ParseFloatError { kind: Invalid }"@,
        LengthError::Unrepresentable => "length beyond 64-bit millimetres"@,
    }
}

impl LengthError {
    /// The text given for a length that could not be read.
    pub fn message(&self) -> (r: String)
        ensures
            r@ == length_error_text(*self),
    {
        match self {
            LengthError::Empty => String::from_str("ParseFloatError { kind: Empty }"),
            LengthError::Invalid => String::from_str("ParseFloatError { kind: Invalid }"),
            LengthError::Unrepresentable => String::from_str("length beyond 64-bit millimetres"),
        }
    }
}

} // verus!
