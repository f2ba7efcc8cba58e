use vstd::prelude::*;
use vstd::arithmetic::power::pow;
use vstd::string::StrSliceExecFns;

verus! {

/// Why a number could not be read from text.
#[derive(PartialEq, Eq, Structural, Debug, Clone, Copy)]
pub enum NumError {
    /// The text is not in the expected form.
    Malformed,
    /// The value does not fit in a `u64`.
    TooLarge,
}

pub open spec fn is_digit(c: char) -> bool {
    '0' <= c && c <= '9'
}

pub open spec fn digit_value(c: char) -> int {
    c as int - '0' as int
}

/// One or more decimal digits.
pub open spec fn all_digits(s: Seq<char>) -> bool {
    s.len() > 0 && forall|i: int| 0 <= i < s.len() ==> is_digit(#[trigger] s[i])
}

/// The number that a string of decimal digits writes.
pub open spec fn digits_value(s: Seq<char>) -> int
    decreases s.len(),
{
    if s.len() == 0 {
        0
    } else {
        digits_value(s.drop_last()) * 10 + digit_value(s.last())
    }
}

/// The bytes that a size suffix stands for: `B`, then `K`, `M`, `G`, `T`, `P`
/// and `E` for the powers of 1024, in either case.
pub open spec fn unit_factor(c: char) -> Option<int> {
    if c == 'b' || c == 'B' {
        Some(1)
    } else if c == 'k' || c == 'K' {
        Some(1024)
    } else if c == 'm' || c == 'M' {
        Some(1048576)
    } else if c == 'g' || c == 'G' {
        Some(1073741824)
    } else if c == 't' || c == 'T' {
        Some(1099511627776)
    } else if c == 'p' || c == 'P' {
        Some(1125899906842624)
    } else if c == 'e' || c == 'E' {
        Some(1152921504606846976)
    } else {
        None
    }
}

/// The bytes that a size written as decimal digits, with or without one
/// suffix, stands for; `None` for text of another form.
pub open spec fn size_value(s: Seq<char>) -> Option<int> {
    if all_digits(s) {
        Some(digits_value(s))
    } else if s.len() > 0 && unit_factor(s.last()) is Some && all_digits(s.drop_last()) {
        Some(digits_value(s.drop_last()) * unit_factor(s.last()).unwrap())
    } else {
        None
    }
}

/// Reading a size: the bytes, or why there are none.
pub open spec fn size_result(s: Seq<char>) -> Result<u64, NumError> {
    match size_value(s) {
        None => Err(NumError::Malformed),
        Some(v) => if v > u64::MAX {
            Err(NumError::TooLarge)
        } else {
            Ok(v as u64)
        },
    }
}

proof fn lemma_digits_value_nonneg(s: Seq<char>)
    requires
        forall|i: int| 0 <= i < s.len() ==> is_digit(#[trigger] s[i]),
    ensures
        digits_value(s) >= 0,
    decreases s.len(),
{
    if s.len() > 0 {
        lemma_digits_value_nonneg(s.drop_last());
    }
}

fn digit_at(s: &str, i: usize) -> (r: Option<u64>)
    requires
        i < s@.len(),
    ensures
        r matches Some(d) ==> is_digit(s@[i as int]) && d == digit_value(s@[i as int]),
        r is None ==> !is_digit(s@[i as int]),
{
    let c = s.get_char(i);
    if '0' <= c && c <= '9' {
        Some((c as u32 - '0' as u32) as u64)
    } else {
        None
    }
}

/// Whether the characters `[from, to)` of `s` are one or more digits.
fn digits_between(s: &str, from: usize, to: usize) -> (r: bool)
    requires
        from <= to <= s@.len(),
    ensures
        r == all_digits(s@.subrange(from as int, to as int)),
{
    if from == to {
        return false;
    }
    let mut i: usize = from;
    while i < to
        invariant
            from <= i <= to <= s@.len(),
            forall|j: int| from <= j < i ==> is_digit(#[trigger] s@[j]),
        decreases to - i,
    {
        if digit_at(s, i).is_none() {
            assert(!is_digit(s@.subrange(from as int, to as int)[i - from]));
            return false;
        }
        i = i + 1;
    }
    assert forall|j: int| 0 <= j < to - from implies is_digit(
        #[trigger] s@.subrange(from as int, to as int)[j],
    ) by {
        assert(s@.subrange(from as int, to as int)[j] == s@[from + j]);
    }
    true
}

/// `acc` followed by the digits `[from, to)` of `s`, as one number:
/// `acc * 10^(to - from)` plus their value, or `None` where that does not
/// fit in a `u64`.
fn append_digits(s: &str, from: usize, to: usize, acc: u64) -> (r: Option<u64>)
    requires
        from <= to <= s@.len(),
        forall|j: int| from <= j < to ==> is_digit(#[trigger] s@[j]),
    ensures
        ({
            let v = acc * pow(10, (to - from) as nat) + digits_value(
                s@.subrange(from as int, to as int),
            );
            &&& r matches Some(x) ==> x == v
            &&& r is None <==> v > u64::MAX
        }),
{
    let mut i: usize = from;
    let mut cur: u64 = acc;
    let mut over: bool = false;
    proof {
        vstd::arithmetic::power::lemma_pow0(10);
    }
    while i < to
        invariant
            from <= i <= to <= s@.len(),
            forall|j: int| from <= j < to ==> is_digit(#[trigger] s@[j]),
            !over ==> cur == acc * pow(10, (i - from) as nat) + digits_value(
                s@.subrange(from as int, i as int),
            ),
            over ==> acc * pow(10, (i - from) as nat) + digits_value(
                s@.subrange(from as int, i as int),
            ) > u64::MAX,
        decreases to - i,
    {
        let d = digit_at(s, i).unwrap();
        let ghost before = acc * pow(10, (i - from) as nat) + digits_value(
            s@.subrange(from as int, i as int),
        );
        let ghost after = acc * pow(10, (i + 1 - from) as nat) + digits_value(
            s@.subrange(from as int, i + 1),
        );
        proof {
            let sub = s@.subrange(from as int, i + 1);
            assert(sub.drop_last() =~= s@.subrange(from as int, i as int));
            assert(digits_value(sub) == digits_value(s@.subrange(from as int, i as int)) * 10 + d);
            vstd::arithmetic::power::lemma_pow_adds(10, (i - from) as nat, 1);
            vstd::arithmetic::power::lemma_pow1(10);
            let p = pow(10, (i - from) as nat);
            assert(pow(10, (i + 1 - from) as nat) == p * 10);
            assert(after == before * 10 + d) by (nonlinear_arith)
                requires
                    after == acc * (p * 10) + (digits_value(s@.subrange(from as int, i as int)) * 10 + d),
                    before == acc * p + digits_value(s@.subrange(from as int, i as int)),;
            assert forall|j: int| 0 <= j < i - from implies is_digit(
                #[trigger] s@.subrange(from as int, i as int)[j],
            ) by {
                assert(s@.subrange(from as int, i as int)[j] == s@[from + j]);
            }
            lemma_digits_value_nonneg(s@.subrange(from as int, i as int));
            vstd::arithmetic::power::lemma_pow_positive(10, (i - from) as nat);
            assert(before >= 0) by (nonlinear_arith)
                requires before == acc * p + digits_value(s@.subrange(from as int, i as int)),
                    p > 0, acc >= 0, digits_value(s@.subrange(from as int, i as int)) >= 0;
        }
        if !over {
            match cur.checked_mul(10) {
                Some(t) => match t.checked_add(d) {
                    Some(u) => {
                        cur = u;
                    },
                    None => {
                        over = true;
                    },
                },
                None => {
                    over = true;
                },
            }
        }
        i = i + 1;
    }
    if over {
        None
    } else {
        Some(cur)
    }
}

/// Reads a size: decimal digits with an optional suffix `B`, `K`, `M`, `G`,
/// `T`, `P` or `E` (either case; powers of 1024).
pub fn parse_size(s: &str) -> (r: Result<u64, NumError>)
    ensures
        r == size_result(s@),
{
    let n = s.unicode_len();
    if digits_between(s, 0, n) {
        proof {
            assert(s@.subrange(0, n as int) =~= s@);
            vstd::arithmetic::power::lemma_pow_positive(10, n as nat);
        }
        return match append_digits(s, 0, n, 0) {
            Some(v) => Ok(v),
            None => Err(NumError::TooLarge),
        };
    }
    assert(s@.subrange(0, n as int) =~= s@);
    if n == 0 {
        return Err(NumError::Malformed);
    }
    let factor: u64 = match unit_of(s.get_char(n - 1)) {
        Some(f) => f,
        None => {
            return Err(NumError::Malformed);
        },
    };
    assert(s@.subrange(0, n - 1) =~= s@.drop_last());
    if !digits_between(s, 0, n - 1) {
        return Err(NumError::Malformed);
    }
    proof {
        assert forall|j: int| 0 <= j < n - 1 implies is_digit(#[trigger] s@[j]) by {
            assert(s@.subrange(0, n - 1)[j] == s@[j]);
        }
    }
    match append_digits(s, 0, n - 1, 0) {
        Some(v) => match v.checked_mul(factor) {
            Some(b) => Ok(b),
            None => Err(NumError::TooLarge),
        },
        None => {
            proof {
                assert(digits_value(s@.drop_last()) * factor >= digits_value(s@.drop_last()))
                    by (nonlinear_arith)
                    requires factor >= 1, digits_value(s@.drop_last()) >= 0;
            }
            Err(NumError::TooLarge)
        },
    }
}

fn unit_of(c: char) -> (r: Option<u64>)
    ensures
        r matches Some(f) ==> unit_factor(c) == Some(f as int),
        r is None ==> unit_factor(c) is None,
{
    if c == 'b' || c == 'B' {
        Some(1)
    } else if c == 'k' || c == 'K' {
        Some(1024)
    } else if c == 'm' || c == 'M' {
        Some(1048576)
    } else if c == 'g' || c == 'G' {
        Some(1073741824)
    } else if c == 't' || c == 'T' {
        Some(1099511627776)
    } else if c == 'p' || c == 'P' {
        Some(1125899906842624)
    } else if c == 'e' || c == 'E' {
        Some(1152921504606846976)
    } else {
        None
    }
}

} // verus!
