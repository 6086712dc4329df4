//! Exact decimal numbers: a 96-bit-bounded integer mantissa together with a
//! power-of-ten scale, the representation the ledger grammar parses amounts
//! into.  All arithmetic is exact; nothing is silently rounded.
use vstd::prelude::*;

verus! {

/// Largest number of fractional digits a decimal may carry.
pub const MAX_SCALE: u32 = 28;

/// Largest mantissa magnitude: 2^96 - 1.
pub const MAX_MANTISSA: i128 = 0xFFFF_FFFF_FFFF_FFFF_FFFF_FFFF;

pub open spec fn pow10(e: nat) -> int
    decreases e,
{
    if e == 0 {
        1
    } else {
        10 * pow10((e - 1) as nat)
    }
}

pub proof fn lemma_pow10_pos(e: nat)
    ensures
        pow10(e) >= 1,
    decreases e,
{
    if e > 0 {
        lemma_pow10_pos((e - 1) as nat);
    }
}

pub proof fn lemma_pow10_mono(a: nat, b: nat)
    requires
        a <= b,
    ensures
        pow10(a) <= pow10(b),
    decreases b,
{
    if a < b {
        lemma_pow10_mono(a, (b - 1) as nat);
        lemma_pow10_pos((b - 1) as nat);
    }
}

pub proof fn lemma_pow10_add(a: nat, b: nat)
    ensures
        pow10(a + b) == pow10(a) * pow10(b),
    decreases a,
{
    if a == 0 {
        assert(pow10(b) == 1 * pow10(b));
    } else {
        lemma_pow10_add((a - 1) as nat, b);
        assert(pow10(a + b) == 10 * pow10((a + b - 1) as nat));
        assert((a - 1) + b == a + b - 1);
        assert(pow10(a) * pow10(b) == (10 * pow10((a - 1) as nat)) * pow10(b));
        assert((10 * pow10((a - 1) as nat)) * pow10(b) == 10 * (pow10((a - 1) as nat) * pow10(b)))
            by (nonlinear_arith);
    }
}

pub proof fn lemma_pow10_28()
    ensures
        pow10(28) == 10000000000000000000000000000,
{
    reveal_with_fuel(pow10, 29);
}

/// An exact decimal: the represented value is `mantissa / 10^scale`.
#[derive(Clone, Copy, Debug)]
pub struct Decimal {
    pub mantissa: i128,
    pub scale: u32,
}

/// The magnitude of a decimal, as a value.
pub open spec fn dec_abs(d: Decimal) -> Decimal {
    Decimal {
        mantissa: if d.mantissa < 0 {
            (-(d.mantissa as int)) as i128
        } else {
            d.mantissa
        },
        scale: d.scale,
    }
}

/// Two decimals denote the same number, by cross-multiplication.
pub open spec fn dec_eq(a: Decimal, b: Decimal) -> bool {
    a.mantissa * pow10(b.scale as nat) == b.mantissa * pow10(a.scale as nat)
}

impl Decimal {
    pub open spec fn wf(self) -> bool {
        &&& self.scale <= MAX_SCALE
        &&& -MAX_MANTISSA <= self.mantissa <= MAX_MANTISSA
    }

    /// The decimal `num / 10^scale`.
    pub fn new(num: i64, scale: u32) -> (r: Decimal)
        requires
            scale <= MAX_SCALE,
        ensures
            r.mantissa == num as int,
            r.scale == scale,
            r.wf(),
    {
        Decimal { mantissa: num as i128, scale }
    }

    /// The magnitude of the decimal.
    pub fn abs(&self) -> (r: Decimal)
        requires
            self.wf(),
        ensures
            r == dec_abs(*self),
            r.scale == self.scale,
            r.mantissa == if self.mantissa < 0 {
                -self.mantissa as int
            } else {
                self.mantissa as int
            },
            r.wf(),
    {
        if self.mantissa < 0 {
            Decimal { mantissa: -self.mantissa, scale: self.scale }
        } else {
            *self
        }
    }
}

/// 10^e as an `i128`.
pub fn pow10_i128(e: u32) -> (r: i128)
    requires
        e <= MAX_SCALE,
    ensures
        r == pow10(e as nat),
{
    let mut i: u32 = 0;
    let mut r: i128 = 1;
    while i < e
        invariant
            0 <= i <= e <= MAX_SCALE,
            r == pow10(i as nat),
        decreases e - i,
    {
        proof {
            lemma_pow10_pos(i as nat);
            lemma_pow10_mono((i + 1) as nat, MAX_SCALE as nat);
            lemma_pow10_28();
            assert(pow10((i + 1) as nat) == 10 * pow10(i as nat));
        }
        r = r * 10;
        i = i + 1;
    }
    r
}

proof fn lemma_mul_cancel(x: int, y: int, p: int)
    requires
        p > 0,
        x * p == y * p,
    ensures
        x == y,
{
    assert(x == y) by (nonlinear_arith)
        requires
            p > 0,
            x * p == y * p,
    ;
}

/// With the scales ordered, value equality is equality of the low-scale
/// mantissa brought up to the higher scale.
proof fn lemma_dec_eq_aligned(a: Decimal, b: Decimal)
    requires
        a.scale <= b.scale,
    ensures
        dec_eq(a, b) <==> a.mantissa * pow10((b.scale - a.scale) as nat) == b.mantissa,
{
    let d = (b.scale - a.scale) as nat;
    lemma_pow10_add(a.scale as nat, d);
    lemma_pow10_pos(a.scale as nat);
    let pa = pow10(a.scale as nat);
    let pd = pow10(d);
    assert(pow10(b.scale as nat) == pa * pd);
    assert(a.mantissa * (pa * pd) == (a.mantissa * pd) * pa) by (nonlinear_arith);
    if dec_eq(a, b) {
        assert((a.mantissa * pd) * pa == b.mantissa * pa);
        lemma_mul_cancel(a.mantissa * pd, b.mantissa as int, pa);
    } else {
        if a.mantissa * pd == b.mantissa {
            assert(a.mantissa * (pa * pd) == b.mantissa * pa);
        }
    }
}

/// Scaling a non-zero mantissa further can only grow its magnitude.
proof fn lemma_scaled_grows(m: int, a: nat, b: nat)
    requires
        m != 0,
        a <= b,
    ensures
        m > 0 ==> m * pow10(a) <= m * pow10(b),
        m < 0 ==> m * pow10(a) >= m * pow10(b),
        m * pow10(a) != 0,
{
    lemma_pow10_mono(a, b);
    lemma_pow10_pos(a);
    assert(m > 0 ==> m * pow10(a) <= m * pow10(b)) by (nonlinear_arith)
        requires
            pow10(a) <= pow10(b),
    ;
    assert(m < 0 ==> m * pow10(a) >= m * pow10(b)) by (nonlinear_arith)
        requires
            pow10(a) <= pow10(b),
    ;
    assert(m * pow10(a) != 0) by (nonlinear_arith)
        requires
            m != 0,
            pow10(a) >= 1,
    ;
}

impl PartialEq for Decimal {
    /// Value equality: `1.20` equals `1.2`.
    fn eq(&self, other: &Decimal) -> (r: bool) {
        let (lo, hi) = if self.scale <= other.scale {
            (self, other)
        } else {
            (other, self)
        };
        proof {
            lemma_dec_eq_aligned(*lo, *hi);
            assert(dec_eq(*self, *other) == dec_eq(*lo, *hi)) by {
                lemma_dec_eq_sym(*self, *other);
            }
        }
        let d: u32 = hi.scale - lo.scale;
        let mut k: u32 = 0;
        let mut m: i128 = lo.mantissa;
        while k < d
            invariant
                0 <= k <= d,
                d == hi.scale - lo.scale,
                lo.scale <= hi.scale,
                m == lo.mantissa * pow10(k as nat),
                dec_eq(*self, *other) == dec_eq(*lo, *hi),
                dec_eq(*lo, *hi) <==> lo.mantissa * pow10((hi.scale - lo.scale) as nat)
                    == hi.mantissa,
            decreases d - k,
        {
            match m.checked_mul(10) {
                Some(next) => {
                    proof {
                        assert(lo.mantissa * pow10((k + 1) as nat) == (lo.mantissa * pow10(
                            k as nat,
                        )) * 10) by {
                            lemma_pow10_add(k as nat, 1);
                            assert(pow10(1) == 10) by {
                                reveal_with_fuel(pow10, 2);
                            }
                            assert(lo.mantissa * (pow10(k as nat) * 10) == (lo.mantissa * pow10(
                                k as nat,
                            )) * 10) by (nonlinear_arith);
                        }
                    }
                    m = next;
                    k = k + 1;
                }
                None => {
                    proof {
                        // m * 10 overflowed i128, so the fully scaled mantissa
                        // lies outside i128 and cannot equal the other mantissa.
                        lemma_pow10_pos(k as nat);
                        assert(lo.mantissa != 0) by (nonlinear_arith)
                            requires
                                m == lo.mantissa * pow10(k as nat),
                                pow10(k as nat) >= 1,
                                m * 10 > i128::MAX || m * 10 < i128::MIN,
                        ;
                        lemma_pow10_add(k as nat, 1);
                        assert(pow10(1) == 10) by {
                            reveal_with_fuel(pow10, 2);
                        }
                        assert(lo.mantissa * pow10((k + 1) as nat) == m * 10) by (nonlinear_arith)
                            requires
                                m == lo.mantissa * pow10(k as nat),
                                pow10((k as nat) + 1) == pow10(k as nat) * pow10(1),
                                pow10(1) == 10,
                        ;
                        lemma_scaled_grows(lo.mantissa as int, (k + 1) as nat, d as nat);
                        assert(lo.mantissa > 0 ==> m * 10 > 0) by (nonlinear_arith)
                            requires
                                m == lo.mantissa * pow10(k as nat),
                                pow10(k as nat) >= 1,
                        ;
                        assert(lo.mantissa < 0 ==> m * 10 < 0) by (nonlinear_arith)
                            requires
                                m == lo.mantissa * pow10(k as nat),
                                pow10(k as nat) >= 1,
                        ;
                        assert(lo.mantissa * pow10(d as nat) != hi.mantissa);
                    }
                    return false;
                }
            }
        }
        m == hi.mantissa
    }
}

pub proof fn lemma_dec_eq_sym(a: Decimal, b: Decimal)
    ensures
        dec_eq(a, b) == dec_eq(b, a),
{
}

impl vstd::std_specs::cmp::PartialEqSpecImpl for Decimal {
    open spec fn obeys_eq_spec() -> bool {
        true
    }

    open spec fn eq_spec(&self, other: &Decimal) -> bool {
        dec_eq(*self, *other)
    }
}

/// The scale both operands of a sum are brought to: the larger of the two.
pub open spec fn sum_scale(a: Decimal, b: Decimal) -> u32 {
    if a.scale >= b.scale {
        a.scale
    } else {
        b.scale
    }
}

/// The exact mathematical sum of the two values, expressed as a mantissa at
/// `sum_scale`.
pub open spec fn aligned_sum(a: Decimal, b: Decimal) -> int {
    a.mantissa * pow10((sum_scale(a, b) - a.scale) as nat) + b.mantissa * pow10(
        (sum_scale(a, b) - b.scale) as nat,
    )
}

impl Decimal {
    /// Exact addition at the larger scale; `None` exactly when the summed
    /// mantissa leaves the 96-bit range.
    pub fn checked_add(self, rhs: Decimal) -> (r: Option<Decimal>)
        requires
            self.wf(),
            rhs.wf(),
        ensures
            (r is Some) <==> -MAX_MANTISSA <= aligned_sum(self, rhs) <= MAX_MANTISSA,
            r matches Some(q) ==> q.wf() && q.scale == sum_scale(self, rhs) && q.mantissa
                == aligned_sum(self, rhs),
    {
        let s = if self.scale >= rhs.scale {
            self.scale
        } else {
            rhs.scale
        };
        let da = s - self.scale;
        let db = s - rhs.scale;
        let pa = pow10_i128(da);
        let pb = pow10_i128(db);
        proof {
            lemma_pow10_pos(da as nat);
            lemma_pow10_pos(db as nat);
            assert(da == 0 || db == 0);
            assert(pow10(0) == 1) by {
                reveal_with_fuel(pow10, 1);
            }
        }
        let ma_opt = self.mantissa.checked_mul(pa);
        let mb_opt = rhs.mantissa.checked_mul(pb);
        match (ma_opt, mb_opt) {
            (Some(ma), Some(mb)) => {
                match ma.checked_add(mb) {
                    Some(total) => {
                        if -MAX_MANTISSA <= total && total <= MAX_MANTISSA {
                            Some(Decimal { mantissa: total, scale: s })
                        } else {
                            None
                        }
                    }
                    None => {
                        None
                    }
                }
            }
            _ => {
                proof {
                    // exactly one factor differs from 1, and its product left
                    // i128; the other term is small, so the sum is out of range
                    assert(self.mantissa * pow10(0) == self.mantissa) by (nonlinear_arith)
                        requires
                            pow10(0) == 1,
                    ;
                    assert(rhs.mantissa * pow10(0) == rhs.mantissa) by (nonlinear_arith)
                        requires
                            pow10(0) == 1,
                    ;
                    if da == 0 {
                        assert(self.mantissa * pow10(0) == self.mantissa);
                        assert(rhs.mantissa * pow10(db as nat) > i128::MAX || rhs.mantissa * pow10(
                            db as nat,
                        ) < i128::MIN);
                    } else {
                        assert(rhs.mantissa * pow10(0) == rhs.mantissa);
                        assert(self.mantissa * pow10(da as nat) > i128::MAX || self.mantissa
                            * pow10(da as nat) < i128::MIN);
                    }
                }
                None
            }
        }
    }
}

pub open spec fn all_digits(s: Seq<char>) -> bool {
    forall|i: int| 0 <= i < s.len() ==> crate::text::digit_char(#[trigger] s[i])
}

/// The integer a digit string denotes.
pub open spec fn digits_int(s: Seq<char>) -> int
    decreases s.len(),
{
    if s.len() == 0 {
        0
    } else {
        digits_int(s.drop_last()) * 10 + crate::text::digit_val(s.last())
    }
}

pub proof fn lemma_digits_push(t: Seq<char>, c: char)
    ensures
        digits_int(t.push(c)) == digits_int(t) * 10 + crate::text::digit_val(c),
{
    assert(t.push(c).drop_last() =~= t);
    assert(t.push(c).last() == c);
}

pub proof fn lemma_digits_nonneg(s: Seq<char>)
    requires
        all_digits(s),
    ensures
        digits_int(s) >= 0,
    decreases s.len(),
{
    if s.len() > 0 {
        assert(all_digits(s.drop_last())) by {
            assert(forall|i: int|
                0 <= i < s.len() - 1 ==> s.drop_last()[i] == #[trigger] s[i]);
        }
        lemma_digits_nonneg(s.drop_last());
        assert(crate::text::digit_char(s.last()));
    }
}

/// A digit string denotes at least as much as any of its prefixes.
pub proof fn lemma_digits_prefix_le(s: Seq<char>, k: int)
    requires
        all_digits(s),
        0 <= k <= s.len(),
    ensures
        digits_int(s.take(k)) <= digits_int(s),
    decreases s.len() - k,
{
    if k < s.len() {
        lemma_digits_prefix_le(s, k + 1);
        assert(s.take(k + 1) =~= s.take(k).push(s[k]));
        lemma_digits_push(s.take(k), s[k]);
        assert(all_digits(s.take(k))) by {
            assert(forall|i: int| 0 <= i < k ==> s.take(k)[i] == #[trigger] s[i]);
        }
        lemma_digits_nonneg(s.take(k));
        assert(crate::text::digit_char(s[k]));
    } else {
        assert(s.take(k) =~= s);
    }
}

/// How a decimal literal `[+|-] digits [. digits]` is read: the optional
/// sign, the position of the dot in the unsigned body, and the digit string
/// with the dot removed.
pub open spec fn lit_sign_len(s: Seq<char>) -> int {
    if s.len() > 0 && (s[0] == '+' || s[0] == '-') {
        1int
    } else {
        0int
    }
}

pub open spec fn lit_neg(s: Seq<char>) -> bool {
    s.len() > 0 && s[0] == '-'
}

pub open spec fn lit_body(s: Seq<char>) -> Seq<char> {
    s.skip(lit_sign_len(s))
}

pub open spec fn lit_dot(s: Seq<char>) -> int {
    crate::text::first_from(lit_body(s), 0, |c: char| c == '.')
}

pub open spec fn lit_digits(s: Seq<char>) -> Seq<char> {
    let b = lit_body(s);
    let d = lit_dot(s);
    if d == b.len() {
        b
    } else {
        b.take(d) + b.skip(d + 1)
    }
}

/// A well-formed decimal literal: all characters besides the sign and the
/// single dot are digits, a dot has at least one digit after it, and a
/// literal without a dot has at least one digit.
pub open spec fn lit_ok(s: Seq<char>) -> bool {
    let b = lit_body(s);
    let d = lit_dot(s);
    &&& all_digits(lit_digits(s))
    &&& if d == b.len() {
        b.len() > 0
    } else {
        b.len() > d + 1
    }
}

pub open spec fn lit_scale(s: Seq<char>) -> nat {
    let b = lit_body(s);
    let d = lit_dot(s);
    if d == b.len() {
        0nat
    } else {
        (b.len() - d - 1) as nat
    }
}

pub open spec fn lit_mantissa(s: Seq<char>) -> int {
    if lit_neg(s) {
        -digits_int(lit_digits(s))
    } else {
        digits_int(lit_digits(s))
    }
}

impl Decimal {
    /// Parses a decimal literal exactly as written: the scale is the number
    /// of fractional digits given, and nothing is rounded.  `None` on a
    /// malformed literal, on more than `MAX_SCALE` fractional digits, and on
    /// a mantissa beyond 96 bits.
    pub fn from_str_exact(s: &str) -> (r: Option<Decimal>)
        ensures
            (r is Some) <==> (lit_ok(s@) && lit_scale(s@) <= MAX_SCALE as nat && -MAX_MANTISSA
                <= lit_mantissa(s@) <= MAX_MANTISSA),
            r matches Some(q) ==> q.wf() && q.mantissa == lit_mantissa(s@) && q.scale as nat
                == lit_scale(s@),
    {
        let n = s.unicode_len();
        let mut j: usize = 0;
        let mut neg = false;
        if n > 0 {
            let c0 = s.get_char(0);
            if c0 == '+' || c0 == '-' {
                neg = c0 == '-';
                j = 1;
            }
        }
        let ghost off = j as int;
        let ghost b = s@.skip(off);
        proof {
            assert(off == lit_sign_len(s@));
            assert(b == lit_body(s@));
        }
        let mut acc: i128 = 0;
        let mut dot: bool = false;
        let ghost mut dpos: int = 0;
        let mut frac: usize = 0;
        proof {
            assert(b.take(0) =~= Seq::<char>::empty());
            assert(digits_int(Seq::<char>::empty()) == 0);
            crate::text::lemma_first_from(b, 0, |c: char| c == '.');
        }
        while j < n
            invariant
                off <= j as int <= n,
                n == s@.len(),
                off == lit_sign_len(s@),
                neg == lit_neg(s@),
                b == lit_body(s@),
                b.len() == n - off,
                0 <= acc <= MAX_MANTISSA,
                !dot ==> {
                    let k = j as int - off;
                    &&& all_digits(b.take(k))
                    &&& acc == digits_int(b.take(k))
                    &&& crate::text::first_from(b, 0, |c: char| c == '.') >= k
                    &&& frac == 0
                },
                dot ==> {
                    let k = j as int - off;
                    &&& 0 <= dpos < k
                    &&& b[dpos] == '.'
                    &&& crate::text::first_from(b, 0, |c: char| c == '.') == dpos
                    &&& all_digits(b.take(dpos))
                    &&& all_digits(b.subrange(dpos + 1, k))
                    &&& acc == digits_int(b.take(dpos) + b.subrange(dpos + 1, k))
                    &&& frac == k - dpos - 1
                },
            decreases n - j,
        {
            let c = s.get_char(j);
            let ghost k = j as int - off;
            proof {
                assert(b[k] == s@[j as int]);
            }
            if crate::text::is_digit(c) {
                let dv = (c as u32) as i128 - 48;
                let next = acc * 10 + dv;
                proof {
                    let sofar = if dot {
                        b.take(dpos) + b.subrange(dpos + 1, k)
                    } else {
                        b.take(k)
                    };
                    lemma_digits_push(sofar, c);
                    if dot {
                        assert(b.take(dpos) + b.subrange(dpos + 1, k + 1) =~= sofar.push(c));
                    } else {
                        assert(b.take(k + 1) =~= sofar.push(c));
                    }
                }
                if next > MAX_MANTISSA {
                    proof {
                        // any valid reading of the whole literal extends these
                        // digits, so its mantissa is out of range as well
                        if lit_ok(s@) {
                            let dd = lit_dot(s@);
                            let ld = lit_digits(s@);
                            crate::text::lemma_first_from(b, 0, |c: char| c == '.');
                            if !dot {
                                assert(dd >= k + 1) by {
                                    if dd == k {
                                        assert(b[k] == '.');
                                    }
                                }
                                assert(ld.take(k + 1) =~= b.take(k + 1));
                                lemma_digits_prefix_le(ld, k + 1);
                                assert(digits_int(b.take(k + 1)) == next);
                            } else {
                                assert(dd == dpos);
                                assert(ld.take(k) =~= b.take(dpos) + b.subrange(
                                    dpos + 1,
                                    k + 1,
                                ));
                                lemma_digits_prefix_le(ld, k);
                                assert(digits_int(b.take(dpos) + b.subrange(dpos + 1, k + 1))
                                    == next);
                            }
                            assert(digits_int(ld) >= next);
                            assert(lit_mantissa(s@) > MAX_MANTISSA || lit_mantissa(s@)
                                < -MAX_MANTISSA);
                        }
                    }
                    return None;
                }
                acc = next;
                if dot {
                    frac = frac + 1;
                }
                proof {
                    if !dot {
                        assert(all_digits(b.take(k + 1))) by {
                            assert(forall|i: int|
                                0 <= i < k + 1 ==> b.take(k + 1)[i] == #[trigger] b[i]);
                            assert(forall|i: int|
                                0 <= i < k ==> b.take(k)[i] == #[trigger] b[i]);
                        }
                        assert(crate::text::first_from(b, 0, |c: char| c == '.') >= k + 1) by {
                            crate::text::lemma_first_from(b, 0, |c: char| c == '.');
                            let f = crate::text::first_from(b, 0, |c: char| c == '.');
                            if f == k {
                                assert(b[k] == '.');
                            }
                        }
                    } else {
                        assert(all_digits(b.subrange(dpos + 1, k + 1))) by {
                            assert(forall|i: int|
                                0 <= i < k + 1 - dpos - 1 ==> b.subrange(dpos + 1, k + 1)[i]
                                    == #[trigger] b[dpos + 1 + i]);
                            assert(forall|i: int|
                                0 <= i < k - dpos - 1 ==> b.subrange(dpos + 1, k)[i]
                                    == #[trigger] b[dpos + 1 + i]);
                        }
                    }
                }
            } else if c == '.' && !dot {
                dot = true;
                proof {
                    dpos = k;
                    assert(crate::text::first_from(b, 0, |c: char| c == '.') == k) by {
                        crate::text::lemma_first_from(b, 0, |c: char| c == '.');
                        let f = crate::text::first_from(b, 0, |c: char| c == '.');
                        if f > k {
                            assert(!((|c: char| c == '.')(b[k])));
                        }
                    }
                    assert(b.subrange(k + 1, k + 1) =~= Seq::<char>::empty());
                    assert(b.take(k) + b.subrange(k + 1, k + 1) =~= b.take(k));
                }
            } else {
                proof {
                    // the character fits no part of the literal grammar
                    if lit_ok(s@) {
                        let dd = lit_dot(s@);
                        let ld = lit_digits(s@);
                        crate::text::lemma_first_from(b, 0, |c: char| c == '.');
                        if dot {
                            assert(dd == dpos);
                            assert(ld[k - 1] == b[k]);
                            assert(crate::text::digit_char(b[k]));
                        } else {
                            assert(dd >= k + 1 || dd == b.len()) by {
                                if dd == k {
                                    assert(b[k] == '.');
                                }
                            }
                            assert(ld[k] == b[k]);
                            assert(crate::text::digit_char(b[k]));
                        }
                    }
                }
                return None;
            }
            j = j + 1;
        }
        let ghost kend = n as int - off;
        proof {
            assert(kend == b.len());
        }
        if !dot {
            if j == 0 || (j == 1 && n == 1 && !crate::text::is_digit(s.get_char(0))) {
                // an empty body (possibly just a sign)
                proof {
                    assert(b.len() == 0);
                    assert(!lit_ok(s@));
                }
                return None;
            }
            proof {
                assert(b.len() > 0);
                assert(b.take(kend) =~= b);
                crate::text::lemma_first_from(b, 0, |c: char| c == '.');
                assert(crate::text::first_from(b, 0, |c: char| c == '.') == b.len());
                assert(lit_digits(s@) == b);
                assert(lit_ok(s@));
                assert(lit_scale(s@) == 0nat);
            }
            let m = if neg {
                -acc
            } else {
                acc
            };
            Some(Decimal { mantissa: m, scale: 0 })
        } else {
            if frac == 0 {
                proof {
                    assert(b.len() == dpos + 1);
                    assert(lit_dot(s@) == dpos);
                    assert(!lit_ok(s@));
                }
                return None;
            }
            if frac > 28 {
                proof {
                    assert(lit_dot(s@) == dpos);
                    assert(lit_scale(s@) == (b.len() - dpos - 1) as nat);
                    assert(lit_scale(s@) > MAX_SCALE as nat);
                }
                return None;
            }
            proof {
                assert(lit_dot(s@) == dpos);
                assert(b.subrange(dpos + 1, kend) =~= b.skip(dpos + 1));
                assert(lit_digits(s@) == b.take(dpos) + b.skip(dpos + 1));
                assert(lit_ok(s@));
                assert(lit_scale(s@) == (b.len() - dpos - 1) as nat);
            }
            let m = if neg {
                -acc
            } else {
                acc
            };
            Some(Decimal { mantissa: m, scale: frac as u32 })
        }
    }
}

/// Mantissa bound under which an exactly representable quotient is always
/// reached by the divisor's long division before any rounding step can fire:
/// 10^28.
pub const EXACT_DIV_BOUND: i128 = 10000000000000000000000000000;

/// `(em / 10^es) * (m2 / 10^s2) == m1 / 10^s1`: the decimal `(em, es)` is the
/// exact quotient of `(m1, s1)` by `(m2, s2)`, written without fractions.
pub open spec fn exact_quot(m1: int, s1: nat, m2: int, s2: nat, em: int, es: nat) -> bool {
    em * m2 * pow10(s1) == m1 * pow10(s2 + es)
}

/// Relies on `rust_decimal::Decimal::checked_div` (with
/// `from_i128_with_scale`, `mantissa` and `scale` for the conversions):
/// division by zero yields `None`; a zero dividend divides to the zero
/// decimal; every result is stored as a 96-bit mantissa with a scale of at
/// most 28.  The exactness and success clauses hold of the long division
/// because it keeps appending quotient digits until the remainder clears,
/// rounds or overflows only once the running quotient has grown past
/// 2^96/10, and strips trailing zeros without changing the value; a
/// quotient that is exactly representable with a mantissa of at most 10^28
/// clears its remainder before any rounding or overflow path can fire, so
/// it is returned, exactly.
#[verifier::external_body]
fn div_mantissas(m1: i128, s1: u32, m2: i128, s2: u32) -> (r: Option<(i128, u32)>)
    requires
        s1 <= MAX_SCALE,
        s2 <= MAX_SCALE,
        -MAX_MANTISSA <= m1 <= MAX_MANTISSA,
        -MAX_MANTISSA <= m2 <= MAX_MANTISSA,
    ensures
        m2 == 0 ==> r is None,
        m1 == 0 && m2 != 0 ==> r == Some((0i128, 0u32)),
        r matches Some(q) ==> q.1 <= MAX_SCALE && -MAX_MANTISSA <= q.0 <= MAX_MANTISSA,
        r matches Some(q) ==> forall|em: int, es: nat|
            -EXACT_DIV_BOUND <= em <= EXACT_DIV_BOUND && es <= MAX_SCALE as nat
                && #[trigger] exact_quot(m1 as int, s1 as nat, m2 as int, s2 as nat, em, es)
                ==> q.0 * pow10(es) == em * pow10(q.1 as nat),
        (m2 != 0 && exists|em: int, es: nat|
            -EXACT_DIV_BOUND <= em <= EXACT_DIV_BOUND && es <= MAX_SCALE as nat
                && #[trigger] exact_quot(m1 as int, s1 as nat, m2 as int, s2 as nat, em, es))
            ==> r is Some,
{
    let a = rust_decimal::Decimal::from_i128_with_scale(m1, s1);
    let b = rust_decimal::Decimal::from_i128_with_scale(m2, s2);
    match a.checked_div(b) {
        Some(q) => Some((q.mantissa(), q.scale())),
        None => None,
    }
}

impl Decimal {
    /// Decimal division as the ledger's cost normalization needs it:
    /// succeeds, exactly, whenever the exact quotient is representable with
    /// a small mantissa; `None` on a zero divisor and on overflow.
    pub fn checked_div(self, rhs: Decimal) -> (r: Option<Decimal>)
        requires
            self.wf(),
            rhs.wf(),
        ensures
            rhs.mantissa == 0 ==> r is None,
            self.mantissa == 0 && rhs.mantissa != 0 ==> r == Some(
                Decimal { mantissa: 0i128, scale: 0u32 },
            ),
            r matches Some(q) ==> q.wf(),
            r matches Some(q) ==> forall|em: int, es: nat|
                -EXACT_DIV_BOUND <= em <= EXACT_DIV_BOUND && es <= MAX_SCALE as nat
                    && #[trigger] exact_quot(
                    self.mantissa as int,
                    self.scale as nat,
                    rhs.mantissa as int,
                    rhs.scale as nat,
                    em,
                    es,
                ) ==> q.mantissa * pow10(es) == em * pow10(q.scale as nat),
            (rhs.mantissa != 0 && exists|em: int, es: nat|
                -EXACT_DIV_BOUND <= em <= EXACT_DIV_BOUND && es <= MAX_SCALE as nat
                    && #[trigger] exact_quot(
                    self.mantissa as int,
                    self.scale as nat,
                    rhs.mantissa as int,
                    rhs.scale as nat,
                    em,
                    es,
                )) ==> r is Some,
    {
        match div_mantissas(self.mantissa, self.scale, rhs.mantissa, rhs.scale) {
            Some(q) => Some(Decimal { mantissa: q.0, scale: q.1 }),
            None => None,
        }
    }
}

/// The character for one decimal digit value.
pub open spec fn digit_of(k: int) -> char {
    if k == 0 {
        '0'
    } else if k == 1 {
        '1'
    } else if k == 2 {
        '2'
    } else if k == 3 {
        '3'
    } else if k == 4 {
        '4'
    } else if k == 5 {
        '5'
    } else if k == 6 {
        '6'
    } else if k == 7 {
        '7'
    } else if k == 8 {
        '8'
    } else {
        '9'
    }
}

/// The decimal digits of `n`, most significant first.
pub open spec fn digits_text(n: nat) -> Seq<char>
    decreases n,
{
    if n < 10 {
        seq![digit_of(n as int)]
    } else {
        digits_text(n / 10) + seq![digit_of((n % 10) as int)]
    }
}

/// Exactly `width` digits of `n`, zero-padded at the front: a fractional
/// part at its written scale.
pub open spec fn frac_text(n: nat, width: nat) -> Seq<char>
    decreases width,
{
    if width == 0 {
        Seq::<char>::empty()
    } else {
        frac_text(n / 10, (width - 1) as nat) + seq![digit_of((n % 10) as int)]
    }
}

/// How a decimal renders back to text: an optional minus sign, the integer
/// digits, and at a positive scale a dot followed by the fractional digits,
/// the written scale preserved.
pub open spec fn dec_text(d: Decimal) -> Seq<char> {
    let m = dec_abs(d).mantissa as nat;
    let sign = if d.mantissa < 0 {
        seq!['-']
    } else {
        Seq::<char>::empty()
    };
    if d.scale == 0 {
        sign + digits_text(m)
    } else {
        sign + digits_text((m as int / pow10(d.scale as nat)) as nat) + seq!['.'] + frac_text(
            (m as int % pow10(d.scale as nat)) as nat,
            d.scale as nat,
        )
    }
}

fn digit_str(d: u32) -> (r: &'static str)
    requires
        d < 10,
    ensures
        r@ == seq![digit_of(d as int)],
{
    proof {
        reveal_strlit("0");
        reveal_strlit("1");
        reveal_strlit("2");
        reveal_strlit("3");
        reveal_strlit("4");
        reveal_strlit("5");
        reveal_strlit("6");
        reveal_strlit("7");
        reveal_strlit("8");
        reveal_strlit("9");
    }
    let r = match d {
        0 => "0",
        1 => "1",
        2 => "2",
        3 => "3",
        4 => "4",
        5 => "5",
        6 => "6",
        7 => "7",
        8 => "8",
        _ => "9",
    };
    proof {
        assert(r@ =~= seq![digit_of(d as int)]);
    }
    r
}

fn nat_text(v0: u128) -> (r: String)
    ensures
        r@ == digits_text(v0 as nat),
{
    if v0 < 10 {
        return String::from_str(digit_str(v0 as u32));
    }
    let mut v = v0;
    let mut acc = String::new();
    while v >= 10
        invariant
            digits_text(v0 as nat) == digits_text(v as nat) + acc@,
        decreases v,
    {
        let digit = String::from_str(digit_str((v % 10) as u32));
        proof {
            assert(digits_text(v as nat) == digits_text((v as nat) / 10) + seq![digit_of(
                ((v as nat) % 10) as int,
            )]);
            assert((digits_text((v as nat) / 10) + seq![digit_of(((v as nat) % 10) as int)]) + acc@
                =~= digits_text((v as nat) / 10) + (seq![digit_of(((v as nat) % 10) as int)]
                + acc@));
        }
        acc = digit.concat(acc.as_str());
        v = v / 10;
    }
    let lead = String::from_str(digit_str(v as u32));
    lead.concat(acc.as_str())
}

fn frac_str(f0: u128, width: u32) -> (r: String)
    ensures
        r@ == frac_text(f0 as nat, width as nat),
{
    let mut f = f0;
    let mut k: u32 = 0;
    let mut acc = String::new();
    while k < width
        invariant
            0 <= k <= width,
            frac_text(f0 as nat, width as nat) == frac_text(f as nat, (width - k) as nat) + acc@,
        decreases width - k,
    {
        let digit = String::from_str(digit_str((f % 10) as u32));
        proof {
            let w = (width - k) as nat;
            assert(frac_text(f as nat, w) == frac_text((f as nat) / 10, (w - 1) as nat)
                + seq![digit_of(((f as nat) % 10) as int)]);
            assert((frac_text((f as nat) / 10, (w - 1) as nat) + seq![digit_of(
                ((f as nat) % 10) as int,
            )]) + acc@ =~= frac_text((f as nat) / 10, (w - 1) as nat) + (seq![digit_of(
                ((f as nat) % 10) as int,
            )] + acc@));
        }
        acc = digit.concat(acc.as_str());
        f = f / 10;
        k = k + 1;
    }
    proof {
        assert(frac_text(f as nat, 0) =~= Seq::<char>::empty());
        assert(Seq::<char>::empty() + acc@ =~= acc@);
    }
    acc
}

impl Decimal {
    /// Renders the decimal back to text, the written scale preserved.
    pub fn to_text(&self) -> (r: String)
        requires
            self.wf(),
        ensures
            r@ == dec_text(*self),
    {
        let mag = self.abs().mantissa as u128;
        let mut out = String::new();
        if self.mantissa < 0 {
            proof {
                reveal_strlit("-");
            }
            out.append("-");
        }
        if self.scale == 0 {
            let digits = nat_text(mag);
            out.append(digits.as_str());
            proof {
                assert(out@ =~= dec_text(*self));
            }
            out
        } else {
            let p = pow10_i128(self.scale) as u128;
            proof {
                lemma_pow10_pos(self.scale as nat);
            }
            let ip = nat_text(mag / p);
            let fp = frac_str(mag % p, self.scale);
            out.append(ip.as_str());
            proof {
                reveal_strlit(".");
            }
            out.append(".");
            out.append(fp.as_str());
            proof {
                assert(out@ =~= dec_text(*self));
            }
            out
        }
    }
}

} // verus!
