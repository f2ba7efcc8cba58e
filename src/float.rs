use vstd::prelude::*;
use vstd::arithmetic::power::pow;
use vstd::string::StrSliceExecFns;
use crate::size::{digits_value, digit_value, is_digit};

verus! {

/// What a decimal floating-point number is, as text stands for it.
pub enum FloatForm {
    /// `±digits * 10^exp / 10^frac_len`: the digits before and after the dot
    /// run together, with `frac_len` of them after it.
    Finite { neg: bool, digits: Seq<char>, frac_len: nat, exp: int },
    /// Positive or negative infinity.
    Infinite { neg: bool },
    /// Not a number.
    NotANumber,
}

/// Zero or more decimal digits.
pub open spec fn only_digits(s: Seq<char>) -> bool {
    forall|i: int| 0 <= i < s.len() ==> is_digit(#[trigger] s[i])
}

/// Where `a` or `b` first stands in `s`; `s.len()` where neither does.
pub open spec fn find_either(s: Seq<char>, a: char, b: char) -> int
    decreases s.len(),
{
    if s.len() == 0 {
        0
    } else if s[0] == a || s[0] == b {
        0
    } else {
        1 + find_either(s.drop_first(), a, b)
    }
}

/// `c` is the lower-case letter `w`, in either case.
pub open spec fn same_letter(c: char, w: char) -> bool {
    c == w || ('A' <= c && c <= 'Z' && c as u32 + 32 == w as u32)
}

/// `s` is the lower-case `word`, with letters in either case.
pub open spec fn is_word(s: Seq<char>, word: Seq<char>) -> bool {
    s.len() == word.len() && forall|i: int| 0 <= i < s.len() ==> same_letter(#[trigger] s[i], word[i])
}

/// An exponent: an optional sign, then one or more digits.
pub open spec fn exponent_value(t: Seq<char>) -> Option<int> {
    if t.len() > 0 && (t[0] == '+' || t[0] == '-') {
        if t.len() > 1 && only_digits(t.skip(1)) {
            Some(if t[0] == '-' { -digits_value(t.skip(1)) } else { digits_value(t.skip(1)) })
        } else {
            None
        }
    } else if t.len() > 0 && only_digits(t) {
        Some(digits_value(t))
    } else {
        None
    }
}

/// The unsigned part of a finite number: digits with at most one dot and at
/// least one digit, then optionally `e` or `E` and an exponent.
pub open spec fn finite_form(neg: bool, r: Seq<char>) -> Option<FloatForm> {
    let ie = find_either(r, 'e', 'E');
    let mant = r.take(ie);
    let id = find_either(mant, '.', '.');
    let ip = mant.take(id);
    let fp = if id < mant.len() { mant.skip(id + 1) } else { Seq::<char>::empty() };
    let exp = if ie < r.len() { exponent_value(r.skip(ie + 1)) } else { Some(0int) };
    if only_digits(ip) && only_digits(fp) && ip.len() + fp.len() > 0 && exp is Some {
        Some(FloatForm::Finite { neg, digits: ip + fp, frac_len: fp.len(), exp: exp.unwrap() })
    } else {
        None
    }
}

/// The number that `s` writes: an optional sign, then `inf`, `infinity` or
/// `nan` in any case, or a finite number; `None` for text of another form.
pub open spec fn float_form(s: Seq<char>) -> Option<FloatForm> {
    let signed = s.len() > 0 && (s[0] == '-' || s[0] == '+');
    let neg = s.len() > 0 && s[0] == '-';
    let r = if signed { s.skip(1) } else { s };
    if is_word(r, seq!['i', 'n', 'f']) || is_word(r, seq!['i', 'n', 'f', 'i', 'n', 'i', 't', 'y']) {
        Some(FloatForm::Infinite { neg })
    } else if is_word(r, seq!['n', 'a', 'n']) {
        Some(FloatForm::NotANumber)
    } else {
        finite_form(neg, r)
    }
}

/// `x * 10^(-j)`, rounded down.
pub open spec fn shifted(x: int, j: int) -> int {
    if j <= 0 {
        x * pow(10, (-j) as nat)
    } else {
        x / pow(10, j as nat)
    }
}

/// `v`, or `u64::MAX` where it is larger.
pub open spec fn saturate(v: int) -> int {
    if v > u64::MAX {
        u64::MAX as int
    } else {
        v
    }
}

/// The rate for the percentage `f` of `base`, rounded down: zero where the
/// percentage is negative or not a number, `u64::MAX` where the rate would
/// be larger.
pub open spec fn percent_rate(f: FloatForm, base: u64) -> u64 {
    match f {
        FloatForm::NotANumber => 0,
        FloatForm::Infinite { neg } => if neg || base == 0 {
            0
        } else {
            u64::MAX
        },
        FloatForm::Finite { neg, digits, frac_len, exp } => if neg {
            0
        } else {
            saturate(shifted(base * digits_value(digits), 2 + frac_len - exp)) as u64
        },
    }
}

/// The exponents past which the result no longer depends on the exponent.
pub const EXP_LIMIT: i128 = 0x1_0000_0000_0000_0000_0000;

/// A number read from text, with its digits and its exponent held as far
/// as a rate can depend on them.
pub struct ParsedFloat {
    pub kind: u8,
    pub neg: bool,
    pub digits: Vec<char>,
    pub frac_len: usize,
    pub exp: i128,
}

pub open spec fn clamp_exp(e: int) -> int {
    if e > EXP_LIMIT {
        EXP_LIMIT as int
    } else if e < -EXP_LIMIT {
        -EXP_LIMIT
    } else {
        e
    }
}

impl ParsedFloat {
    /// The digits are digits, the fraction is among them, and the exponent
    /// is clamped.
    pub open spec fn wf(&self) -> bool {
        &&& self.kind <= 2
        &&& only_digits(self.digits@)
        &&& self.frac_len <= self.digits@.len()
        &&& -EXP_LIMIT <= self.exp <= EXP_LIMIT
    }

    /// This value holds `f`: its kind (0 finite, 1 infinite, 2 not a number),
    /// sign, digits, and exponent clamped to `EXP_LIMIT`.
    pub open spec fn holds(&self, f: FloatForm) -> bool {
        match f {
            FloatForm::Finite { neg, digits, frac_len, exp } => self.kind == 0 && self.neg == neg
                && self.digits@ == digits && self.frac_len == frac_len && self.exp == clamp_exp(
                exp,
            ),
            FloatForm::Infinite { neg } => self.kind == 1 && self.neg == neg,
            FloatForm::NotANumber => self.kind == 2,
        }
    }
}


proof fn lemma_digits_concat(a: Seq<char>, b: Seq<char>)
    ensures
        digits_value(a + b) == digits_value(a) * pow(10, b.len()) + digits_value(b),
    decreases b.len(),
{
    if b.len() == 0 {
        assert(a + b =~= a);
        vstd::arithmetic::power::lemma_pow0(10);
    } else {
        let bl = b.drop_last();
        assert((a + b).drop_last() =~= a + bl);
        assert((a + b).last() == b.last());
        lemma_digits_concat(a, bl);
        vstd::arithmetic::power::lemma_pow_adds(10, bl.len(), 1);
        vstd::arithmetic::power::lemma_pow1(10);
        let p = pow(10, bl.len());
        assert(pow(10, b.len()) == p * 10);
        let x = digits_value(a);
        let y = digits_value(bl);
        assert((x * p + y) * 10 + digit_value(b.last()) == x * (p * 10) + (y * 10 + digit_value(
            b.last(),
        ))) by (nonlinear_arith);
    }
}

proof fn lemma_digits_bound(s: Seq<char>)
    requires
        only_digits(s),
    ensures
        0 <= digits_value(s) < pow(10, s.len()),
    decreases s.len(),
{
    if s.len() == 0 {
        vstd::arithmetic::power::lemma_pow0(10);
    } else {
        let t = s.drop_last();
        assert(only_digits(t)) by {
            assert forall|i: int| 0 <= i < t.len() implies is_digit(#[trigger] t[i]) by {
                assert(t[i] == s[i]);
            }
        }
        lemma_digits_bound(t);
        vstd::arithmetic::power::lemma_pow_adds(10, t.len(), 1);
        vstd::arithmetic::power::lemma_pow1(10);
        assert(is_digit(s[s.len() - 1]));
        let p = pow(10, t.len());
        let x = digits_value(t);
        let d = digit_value(s.last());
        assert(x * 10 + d < p * 10) by (nonlinear_arith)
            requires 0 <= x < p, 0 <= d <= 9;
    }
}

proof fn lemma_pow10_20()
    ensures
        pow(10, 20) > u64::MAX,
{
    reveal_with_fuel(pow, 21);
}

proof fn lemma_pow10_at_least(k: nat)
    requires
        k >= 20,
    ensures
        pow(10, k) > u64::MAX,
{
    lemma_pow10_20();
    vstd::arithmetic::power::lemma_pow_increases(10, 20, k);
}

/// The characters of `s`, one by one.
fn chars_of(s: &str) -> (r: Vec<char>)
    ensures
        r@ == s@,
{
    let n = s.unicode_len();
    let mut r: Vec<char> = Vec::new();
    let mut i: usize = 0;
    while i < n
        invariant
            i <= n == s@.len(),
            r@ == s@.take(i as int),
        decreases n - i,
    {
        r.push(s.get_char(i));
        i = i + 1;
        assert(r@ =~= s@.take(i as int));
    }
    assert(r@ =~= s@);
    r
}

fn slice_of(v: &Vec<char>, from: usize, to: usize) -> (r: Vec<char>)
    requires
        from <= to <= v@.len(),
    ensures
        r@ == v@.subrange(from as int, to as int),
{
    let mut r: Vec<char> = Vec::new();
    let mut i: usize = from;
    while i < to
        invariant
            from <= i <= to <= v@.len(),
            r@ == v@.subrange(from as int, i as int),
        decreases to - i,
    {
        r.push(v[i]);
        i = i + 1;
        assert(r@ =~= v@.subrange(from as int, i as int));
    }
    r
}

fn find_either_in(v: &Vec<char>, a: char, b: char) -> (r: usize)
    ensures
        r == find_either(v@, a, b),
        r <= v@.len(),
{
    let mut i: usize = 0;
    assert(v@.subrange(0, v@.len() as int) =~= v@);
    while i < v.len() && v[i] != a && v[i] != b
        invariant
            i <= v@.len(),
            find_either(v@, a, b) == i + find_either(v@.subrange(i as int, v@.len() as int), a, b),
        decreases v@.len() - i,
    {
        assert(v@.subrange(i as int, v@.len() as int).drop_first() =~= v@.subrange(
            i + 1,
            v@.len() as int,
        ));
        i = i + 1;
    }
    i
}

fn all_digits_in(v: &Vec<char>) -> (r: bool)
    ensures
        r == only_digits(v@),
{
    let mut i: usize = 0;
    while i < v.len()
        invariant
            i <= v@.len(),
            forall|j: int| 0 <= j < i ==> is_digit(#[trigger] v@[j]),
        decreases v@.len() - i,
    {
        if !(v[i] >= '0' && v[i] <= '9') {
            return false;
        }
        i = i + 1;
    }
    true
}

fn word_in(v: &Vec<char>, word: &Vec<char>) -> (r: bool)
    ensures
        r == is_word(v@, word@),
{
    if v.len() != word.len() {
        return false;
    }
    let mut i: usize = 0;
    while i < v.len()
        invariant
            i <= v@.len() == word@.len(),
            forall|j: int| 0 <= j < i ==> same_letter(#[trigger] v@[j], word@[j]),
        decreases v@.len() - i,
    {
        let c = v[i];
        let w = word[i];
        if !(c == w || ('A' <= c && c <= 'Z' && (c as u32) + 32 == (w as u32))) {
            return false;
        }
        i = i + 1;
    }
    true
}

/// The value of the digits of `v` from `from` on, clamped to `EXP_LIMIT`.
fn digits_clamped(v: &Vec<char>, from: usize) -> (r: u128)
    requires
        from <= v@.len(),
        only_digits(v@.skip(from as int)),
    ensures
        r == if digits_value(v@.skip(from as int)) > EXP_LIMIT {
            EXP_LIMIT as int
        } else {
            digits_value(v@.skip(from as int))
        },
{
    let lim: u128 = 0x1_0000_0000_0000_0000_0000;
    assert(lim == EXP_LIMIT);
    let mut acc: u128 = 0;
    let mut i: usize = from;
    while i < v.len()
        invariant
            from <= i <= v@.len(),
            only_digits(v@.skip(from as int)),
            acc == if digits_value(v@.subrange(from as int, i as int)) > EXP_LIMIT {
                EXP_LIMIT as int
            } else {
                digits_value(v@.subrange(from as int, i as int))
            },
            digits_value(v@.subrange(from as int, i as int)) >= 0,
            lim == EXP_LIMIT,
        decreases v@.len() - i,
    {
        assert(v@.subrange(from as int, i + 1).drop_last() =~= v@.subrange(from as int, i as int));
        assert(is_digit(v@.skip(from as int)[i - from]));
        let d: u128 = (v[i] as u32 - '0' as u32) as u128;
        let ghost old_val = digits_value(v@.subrange(from as int, i as int));
        assert(v@.subrange(from as int, i + 1).last() == v@[i as int]);
        assert(digits_value(v@.subrange(from as int, i + 1)) == old_val * 10 + d);
        let next: u128 = acc * 10 + d;
        acc = if next > lim { lim } else { next };
        assert(d == digit_value(v@[i as int]));
        assert(0 <= d <= 9);
        assert(old_val > EXP_LIMIT ==> old_val * 10 + d > EXP_LIMIT);
        assert(old_val > EXP_LIMIT ==> acc == EXP_LIMIT);
        assert(old_val <= EXP_LIMIT ==> next == old_val * 10 + d);
        assert(acc == if old_val * 10 + d > EXP_LIMIT { EXP_LIMIT as int } else { old_val * 10 + d });
        i = i + 1;
    }
    assert(v@.subrange(from as int, v@.len() as int) =~= v@.skip(from as int));
    acc
}

/// Reads an exponent: an optional sign, then digits; clamped to `EXP_LIMIT`.
fn exponent_in(t: &Vec<char>) -> (r: Option<i128>)
    ensures
        r matches Some(e) ==> exponent_value(t@) matches Some(x) && e == clamp_exp(x),
        r is None ==> exponent_value(t@) is None,
{
    if t.len() > 0 && (t[0] == '+' || t[0] == '-') {
        let rest = slice_of(t, 1, t.len());
        assert(rest@ =~= t@.skip(1));
        if t.len() > 1 && all_digits_in(&rest) {
            assert(rest@.skip(0) =~= rest@);
            let m = digits_clamped(&rest, 0);
            if t[0] == '-' {
                Some(-(m as i128))
            } else {
                Some(m as i128)
            }
        } else {
            None
        }
    } else if t.len() > 0 && all_digits_in(t) {
        assert(t@.skip(0) =~= t@);
        Some(digits_clamped(t, 0) as i128)
    } else {
        None
    }
}

/// `base` times the number that the first `upto` digits of `ds` write,
/// saturated at `u64::MAX`.
fn times_digits(base: u64, ds: &Vec<char>, upto: usize) -> (r: u64)
    requires
        upto <= ds@.len(),
        only_digits(ds@),
    ensures
        r == saturate(base * digits_value(ds@.take(upto as int))),
{
    let mut acc: u64 = 0;
    let mut i: usize = 0;
    assert(ds@.take(0) =~= Seq::<char>::empty());
    while i < upto
        invariant
            i <= upto <= ds@.len(),
            only_digits(ds@),
            acc == saturate(base * digits_value(ds@.take(i as int))),
            base * digits_value(ds@.take(i as int)) >= 0,
        decreases upto - i,
    {
        let ghost x = base * digits_value(ds@.take(i as int));
        assert(ds@.take(i + 1).drop_last() =~= ds@.take(i as int));
        assert(ds@.take(i + 1).last() == ds@[i as int]);
        assert(is_digit(ds@[i as int]));
        let d: u64 = (ds[i] as u32 - '0' as u32) as u64;
        assert(d == digit_value(ds@[i as int]));
        let ghost dv = digits_value(ds@.take(i as int));
        assert(base * (dv * 10 + d) == x * 10 + base * d) by (nonlinear_arith)
            requires x == base * dv;
        assert(base * d <= u64::MAX * 9) by (nonlinear_arith)
            requires d <= 9, base <= u64::MAX;
        assert(base * d >= 0) by (nonlinear_arith)
            requires d >= 0, base >= 0;
        let next: u128 = (acc as u128) * 10 + (base as u128) * (d as u128);
        acc = if next > u64::MAX as u128 {
            u64::MAX
        } else {
            next as u64
        };
        i = i + 1;
    }
    acc
}

proof fn lemma_carry_step(base: int, d: int, s: int, p: int)
    requires
        base >= 0,
        d >= 0,
        s >= 0,
        p > 0,
    ensures
        (base * d + (base * s) / p) / 10 == base * (d * p + s) / (p * 10),
{
    let x = base * (d * p + s);
    assert(x == base * s + (base * d) * p) by (nonlinear_arith)
        requires x == base * (d * p + s);
    assert(base * s >= 0) by (nonlinear_arith)
        requires base >= 0, s >= 0;
    vstd::arithmetic::div_mod::lemma_hoist_over_denominator(base * s, base * d, p as nat);
    vstd::arithmetic::div_mod::lemma_div_denominator(x, p, 10);
}

/// `base` times the number that the digits of `ds` from `from` on write,
/// divided by ten for each of those digits, rounded down.
fn carry_of(base: u64, ds: &Vec<char>, from: usize) -> (r: u64)
    requires
        from <= ds@.len(),
        only_digits(ds@),
    ensures
        r == base * digits_value(ds@.skip(from as int)) / pow(10, (ds@.len() - from) as nat),
        r <= base,
{
    let n = ds.len();
    let mut c: u64 = 0;
    let mut i: usize = n;
    proof {
        vstd::arithmetic::power::lemma_pow0(10);
        assert(ds@.subrange(n as int, n as int) =~= Seq::<char>::empty());
    }
    while i > from
        invariant
            from <= i <= n == ds@.len(),
            only_digits(ds@),
            c == base * digits_value(ds@.subrange(i as int, n as int)) / pow(10, (n - i) as nat),
            c <= base,
        decreases i,
    {
        let ghost tail = ds@.subrange(i as int, n as int);
        let ghost p = pow(10, (n - i) as nat);
        assert(is_digit(ds@[i - 1]));
        let d: u64 = (ds[i - 1] as u32 - '0' as u32) as u64;
        proof {
            assert(ds@.subrange(i - 1, n as int) =~= seq![ds@[i - 1]] + tail);
            lemma_digits_concat(seq![ds@[i - 1]], tail);
            reveal_with_fuel(digits_value, 2);
            assert(seq![ds@[i - 1]].drop_last() =~= Seq::<char>::empty());
            assert(digits_value(seq![ds@[i - 1]]) == d);
            vstd::arithmetic::power::lemma_pow_positive(10, (n - i) as nat);
            vstd::arithmetic::power::lemma_pow_adds(10, (n - i) as nat, 1);
            vstd::arithmetic::power::lemma_pow1(10);
            assert(pow(10, (n - i + 1) as nat) == p * 10);
            assert(only_digits(tail)) by {
                assert forall|k: int| 0 <= k < tail.len() implies is_digit(#[trigger] tail[k]) by {
                    assert(tail[k] == ds@[i + k]);
                }
            }
            lemma_digits_bound(tail);
            lemma_carry_step(base as int, d as int, digits_value(tail), p);
            assert((base * d + c) / 10 <= base) by (nonlinear_arith)
                requires d <= 9, c <= base, base >= 0, d >= 0, c >= 0;
        }
        c = (((base as u128) * (d as u128) + c as u128) / 10) as u64;
        i = i - 1;
    }
    assert(ds@.subrange(from as int, n as int) =~= ds@.skip(from as int));
    c
}

/// `base` times the number that the digits `ds` write, times `10^(-j)`,
/// rounded down and saturated at `u64::MAX`.
pub fn scaled_digits(base: u64, ds: &Vec<char>, j: i128) -> (r: u64)
    requires
        only_digits(ds@),
        j > i128::MIN,
    ensures
        r == saturate(shifted(base * digits_value(ds@), j as int)),
{
    let n = ds.len();
    assert(ds@.take(n as int) =~= ds@);
    proof {
        lemma_digits_bound(ds@);
        assert(base * digits_value(ds@) >= 0) by (nonlinear_arith)
            requires base >= 0, digits_value(ds@) >= 0;
    }
    let ghost x = base * digits_value(ds@);
    if j <= 0 {
        // multiply by ten `-j` times, stopping once the value is settled
        let k: u128 = (-j) as u128;
        let mut acc: u64 = times_digits(base, ds, n);
        let mut t: u128 = 0;
        proof { vstd::arithmetic::power::lemma_pow0(10); }
        while t < k && acc > 0 && acc < u64::MAX
            invariant
                t <= k,
                x >= 0,
                acc == saturate(x * pow(10, t as nat)),
            decreases u64::MAX - acc,
        {
            proof {
                vstd::arithmetic::power::lemma_pow_adds(10, t as nat, 1);
                vstd::arithmetic::power::lemma_pow1(10);
                let p = pow(10, t as nat);
                assert(x * (p * 10) == (x * p) * 10) by (nonlinear_arith);
            }
            let next: u128 = (acc as u128) * 10;
            acc = if next > u64::MAX as u128 { u64::MAX } else { next as u64 };
            t = t + 1;
        }
        proof {
            if t < k {
                vstd::arithmetic::power::lemma_pow_positive(10, t as nat);
                vstd::arithmetic::power::lemma_pow_positive(10, (k - t) as nat);
                vstd::arithmetic::power::lemma_pow_adds(10, t as nat, (k - t) as nat);
                let p = pow(10, t as nat);
                let q = pow(10, (k - t) as nat);
                let y = x * p;
                assert(x * (p * q) == y * q) by (nonlinear_arith)
                    requires y == x * p;
                if acc == 0 {
                    assert(y * q == 0) by (nonlinear_arith) requires y == 0;
                } else {
                    // acc is u64::MAX, so x * p >= u64::MAX and q >= 10
                    vstd::arithmetic::power::lemma_pow_increases(10, 1, (k - t) as nat);
                    vstd::arithmetic::power::lemma_pow1(10);
                    assert(y * q > u64::MAX) by (nonlinear_arith)
                        requires y >= u64::MAX, q >= 10;
                }
            }
        }
        acc
    } else if j as u128 <= n as u128 {
        let split: usize = (n as u128 - j as u128) as usize;
        let top = times_digits(base, ds, split);
        let c = carry_of(base, ds, split);
        proof {
            let a = ds@.take(split as int);
            let b = ds@.skip(split as int);
            assert(ds@ =~= a + b);
            lemma_digits_concat(a, b);
            let p = pow(10, j as nat);
            vstd::arithmetic::power::lemma_pow_positive(10, j as nat);
            let ta = base * digits_value(a);
            let tb = base * digits_value(b);
            assert(x == tb + ta * p) by (nonlinear_arith)
                requires x == base * (digits_value(a) * p + digits_value(b)), ta == base * digits_value(a), tb == base * digits_value(b);
            assert(only_digits(a)) by {
                assert forall|k: int| 0 <= k < a.len() implies is_digit(#[trigger] a[k]) by {
                    assert(a[k] == ds@[k]);
                }
            }
            lemma_digits_bound(a);
            assert(only_digits(b)) by {
                assert forall|k: int| 0 <= k < b.len() implies is_digit(#[trigger] b[k]) by {
                    assert(b[k] == ds@[split + k]);
                }
            }
            lemma_digits_bound(b);
            assert(tb >= 0 && ta >= 0) by (nonlinear_arith)
                requires base >= 0, digits_value(a) >= 0, digits_value(b) >= 0, ta == base * digits_value(a), tb == base * digits_value(b);
            vstd::arithmetic::div_mod::lemma_hoist_over_denominator(tb, ta, p as nat);
        }
        let sum: u128 = top as u128 + c as u128;
        if sum > u64::MAX as u128 {
            u64::MAX
        } else {
            sum as u64
        }
    } else {
        // divide by ten `j - n` more times, stopping once nothing is left
        let k: u128 = j as u128 - n as u128;
        let c0 = carry_of(base, ds, 0);
        assert(ds@.skip(0) =~= ds@);
        let mut c: u64 = c0;
        let mut t: u128 = 0;
        proof {
            vstd::arithmetic::power::lemma_pow0(10);
            vstd::arithmetic::power::lemma_pow_positive(10, n as nat);
        }
        while t < k && c > 0
            invariant
                t <= k,
                c0 >= 0,
                c == c0 as int / pow(10, t as nat),
            decreases c,
        {
            proof {
                vstd::arithmetic::power::lemma_pow_positive(10, t as nat);
                vstd::arithmetic::div_mod::lemma_div_denominator(c0 as int, pow(10, t as nat), 10);
                vstd::arithmetic::power::lemma_pow_adds(10, t as nat, 1);
                vstd::arithmetic::power::lemma_pow1(10);
            }
            c = c / 10;
            t = t + 1;
        }
        proof {
            vstd::arithmetic::power::lemma_pow_positive(10, t as nat);
            vstd::arithmetic::power::lemma_pow_positive(10, (k - t) as nat);
            vstd::arithmetic::power::lemma_pow_adds(10, t as nat, (k - t) as nat);
            vstd::arithmetic::div_mod::lemma_div_denominator(c0 as int, pow(10, t as nat), pow(10, (k - t) as nat));
            if t < k {
                assert(c == 0);
                assert(0int / pow(10, (k - t) as nat) == 0);
            }
            vstd::arithmetic::div_mod::lemma_div_denominator(x, pow(10, n as nat), pow(10, k as nat));
            vstd::arithmetic::power::lemma_pow_adds(10, n as nat, k as nat);
        }
        c
    }
}

proof fn lemma_exp_clamp_irrelevant(base: u64, ds: Seq<char>, fl: nat, e: int)
    requires
        only_digits(ds),
        ds.len() <= u64::MAX,
        fl <= ds.len(),
    ensures
        saturate(shifted(base * digits_value(ds), 2 + fl - e)) == saturate(
            shifted(base * digits_value(ds), 2 + fl - clamp_exp(e)),
        ),
{
    let m = digits_value(ds);
    let x = base * m;
    let l = ds.len();
    lemma_digits_bound(ds);
    vstd::arithmetic::power::lemma_pow_positive(10, l);
    assert(x >= 0) by (nonlinear_arith)
        requires x == base * m, m >= 0, base >= 0;
    if e > EXP_LIMIT {
        let j1 = 2 + fl - e;
        let j2 = 2 + fl - EXP_LIMIT;
        if x == 0 {
            assert(0 * pow(10, (-j1) as nat) == 0);
            assert(0 * pow(10, (-j2) as nat) == 0);
        } else {
            lemma_pow10_at_least((-j1) as nat);
            lemma_pow10_at_least((-j2) as nat);
            let p1 = pow(10, (-j1) as nat);
            let p2 = pow(10, (-j2) as nat);
            assert(x * p1 > u64::MAX && x * p2 > u64::MAX) by (nonlinear_arith)
                requires x >= 1, p1 > u64::MAX, p2 > u64::MAX;
        }
    } else if e < -EXP_LIMIT {
        let j1 = 2 + fl - e;
        let j2 = 2 + fl + EXP_LIMIT;
        lemma_pow10_20();
        vstd::arithmetic::power::lemma_pow_adds(10, l, 20);
        vstd::arithmetic::power::lemma_pow_increases(10, l + 20, j1 as nat);
        vstd::arithmetic::power::lemma_pow_increases(10, l + 20, j2 as nat);
        let pl = pow(10, l);
        let p20 = pow(10, 20);
        assert(x < pl * p20) by (nonlinear_arith)
            requires x == base * m, 0 <= m < pl, base <= u64::MAX, p20 > u64::MAX, pl > 0;
        vstd::arithmetic::div_mod::lemma_basic_div(x, pow(10, j1 as nat));
        vstd::arithmetic::div_mod::lemma_basic_div(x, pow(10, j2 as nat));
    }
}

/// The rate, in bytes per second, for the percentage `p` of `base`: rounded
/// down, zero where `p` is negative or not a number, and `u64::MAX` where
/// the rate would be larger.
pub fn percent_of(base: u64, p: &ParsedFloat) -> (r: u64)
    requires
        p.wf(),
    ensures
        forall|f: FloatForm| p.holds(f) ==> r == percent_rate(f, base),
{
    if p.kind == 2 {
        0
    } else if p.kind == 1 {
        if p.neg || base == 0 {
            0
        } else {
            u64::MAX
        }
    } else if p.neg {
        0
    } else {
        let j: i128 = 2 + p.frac_len as i128 - p.exp;
        let r = scaled_digits(base, &p.digits, j);
        let n: usize = p.digits.len();
        assert(n as int <= u64::MAX);
        proof {
            assert forall|f: FloatForm| p.holds(f) implies r == percent_rate(f, base) by {
                if let FloatForm::Finite { neg, digits, frac_len, exp } = f {
                    lemma_exp_clamp_irrelevant(base, digits, frac_len, exp);
                }
            }
        }
        r
    }
}

/// Reads a decimal floating-point number: an optional sign, then `inf`,
/// `infinity` or `nan` in any case, or digits with at most one dot (at least
/// one digit) and an optional exponent after `e` or `E`.
pub fn parse_float(s: &str) -> (r: Option<ParsedFloat>)
    ensures
        r matches Some(p) ==> float_form(s@) matches Some(f) && p.holds(f) && p.wf(),
        r is None ==> float_form(s@) is None,
{
    let v = chars_of(s);
    let signed = v.len() > 0 && (v[0] == '-' || v[0] == '+');
    let neg = v.len() > 0 && v[0] == '-';
    let r = if signed {
        slice_of(&v, 1, v.len())
    } else {
        slice_of(&v, 0, v.len())
    };
    assert(r@ == if signed { s@.skip(1) } else { s@ });
    if word_in(&r, &vec!['i', 'n', 'f']) || word_in(&r, &vec!['i', 'n', 'f', 'i', 'n', 'i', 't', 'y']) {
        return Some(ParsedFloat { kind: 1, neg, digits: Vec::new(), frac_len: 0, exp: 0 });
    }
    if word_in(&r, &vec!['n', 'a', 'n']) {
        return Some(ParsedFloat { kind: 2, neg, digits: Vec::new(), frac_len: 0, exp: 0 });
    }
    let ie = find_either_in(&r, 'e', 'E');
    let mant = slice_of(&r, 0, ie);
    assert(mant@ =~= r@.take(ie as int));
    let id = find_either_in(&mant, '.', '.');
    let ip = slice_of(&mant, 0, id);
    assert(ip@ =~= mant@.take(id as int));
    let fp = if id < mant.len() {
        slice_of(&mant, id + 1, mant.len())
    } else {
        Vec::new()
    };
    assert(fp@ =~= if id < mant@.len() { mant@.skip(id + 1) } else { Seq::<char>::empty() });
    let exp = if ie < r.len() {
        let t = slice_of(&r, ie + 1, r.len());
        assert(t@ =~= r@.skip(ie + 1));
        exponent_in(&t)
    } else {
        Some(0i128)
    };
    if !all_digits_in(&ip) || !all_digits_in(&fp) || ip.len() + fp.len() == 0 {
        return None;
    }
    let e = match exp {
        Some(e) => e,
        None => {
            return None;
        },
    };
    let mut digits = ip;
    let mut k: usize = 0;
    let ghost ipv = digits@;
    while k < fp.len()
        invariant
            k <= fp@.len(),
            digits@ == ipv + fp@.take(k as int),
        decreases fp@.len() - k,
    {
        digits.push(fp[k]);
        k = k + 1;
        assert(digits@ =~= ipv + fp@.take(k as int));
    }
    assert(fp@.take(fp@.len() as int) =~= fp@);
    proof {
        assert forall|i: int| 0 <= i < digits@.len() implies is_digit(#[trigger] digits@[i]) by {
            if i < ipv.len() {
                assert(digits@[i] == ipv[i]);
            } else {
                assert(digits@[i] == fp@[i - ipv.len()]);
            }
        }
    }
    Some(ParsedFloat { kind: 0, neg, digits, frac_len: fp.len(), exp: e })
}

} // verus!
