use vstd::prelude::*;
use vstd::string::StrSliceExecFns;
use crate::float::{FloatForm, float_form, parse_float, percent_of, percent_rate};
use crate::size::{NumError, parse_size, size_result};

verus! {

/// Why a rate could not be resolved.
#[derive(PartialEq, Eq, Structural, Debug, Clone, Copy)]
pub enum RateError {
    /// What stands before `%` is not a number.
    Percent,
    /// A percentage was given, but no baseline value of that name is set.
    MissingBaseline,
    /// The baseline value could not be read as a size.
    Baseline(NumError),
    /// The rate could not be read as a size.
    Size(NumError),
}

/// The value of the first entry of `vars` named `key`.
pub open spec fn lookup(vars: Seq<(String, String)>, key: Seq<char>) -> Option<Seq<char>>
    decreases vars.len(),
{
    if vars.len() == 0 {
        None
    } else if vars[0].0@ == key {
        Some(vars[0].1@)
    } else {
        lookup(vars.drop_first(), key)
    }
}

/// The rate, in bytes per second, that `input` asks for: a size, or a
/// percentage (a floating-point number followed by `%`) of the size stored
/// under `key` in `vars`, rounded down, zero where the percentage is negative
/// or not a number, and `u64::MAX` where the rate would be larger.
pub open spec fn rate_result(input: Seq<char>, vars: Seq<(String, String)>, key: Seq<char>) -> Result<
    u64,
    RateError,
> {
    if input.len() > 0 && input.last() == '%' {
        match float_form(input.drop_last()) {
            None => Err(RateError::Percent),
            Some(f) => match lookup(vars, key) {
                None => Err(RateError::MissingBaseline),
                Some(b) => match size_result(b) {
                    Err(e) => Err(RateError::Baseline(e)),
                    Ok(base) => Ok(percent_rate(f, base)),
                },
            },
        }
    } else {
        match size_result(input) {
            Err(e) => Err(RateError::Size(e)),
            Ok(v) => Ok(v),
        }
    }
}

/// Whether two strings hold the same characters.
fn same_text(a: &str, b: &str) -> (r: bool)
    ensures
        r == (a@ == b@),
{
    let n = a.unicode_len();
    if n != b.unicode_len() {
        return false;
    }
    let mut i: usize = 0;
    while i < n
        invariant
            i <= n == a@.len() == b@.len(),
            forall|j: int| 0 <= j < i ==> a@[j] == b@[j],
        decreases n - i,
    {
        if a.get_char(i) != b.get_char(i) {
            return false;
        }
        i = i + 1;
    }
    assert(a@ =~= b@);
    true
}

/// The value of the first entry of `vars` named `key`, if there is one.
pub fn find_var<'a>(vars: &'a Vec<(String, String)>, key: &str) -> (r: Option<&'a String>)
    ensures
        r matches Some(v) ==> lookup(vars@, key@) == Some(v@),
        r is None ==> lookup(vars@, key@) is None,
{
    let mut i: usize = 0;
    assert(vars@.skip(0) =~= vars@);
    while i < vars.len()
        invariant
            i <= vars@.len(),
            lookup(vars@, key@) == lookup(vars@.skip(i as int), key@),
        decreases vars@.len() - i,
    {
        assert(vars@.skip(i as int).drop_first() =~= vars@.skip(i + 1));
        if same_text(vars[i].0.as_str(), key) {
            return Some(&vars[i].1);
        }
        i = i + 1;
    }
    None
}

/// Resolves a rate, in bytes per second: either a size (see `parse_size`),
/// or a percentage, a floating-point number (see `parse_float`) followed by
/// `%`, of the size stored under `base_key` in `vars`: rounded down, zero
/// where the percentage is negative or not a number, and `u64::MAX` where
/// the rate would be larger.
pub fn parse_bps(input: &str, base_key: &str, vars: &Vec<(String, String)>) -> (r: Result<
    u64,
    RateError,
>)
    ensures
        r == rate_result(input@, vars@, base_key@),
{
    let len = input.unicode_len();
    if len > 0 && input.get_char(len - 1) == '%' {
        let pct = input.substring_char(0, len - 1);
        assert(pct@ =~= input@.drop_last());
        let pf = match parse_float(pct) {
            Some(v) => v,
            None => {
                return Err(RateError::Percent);
            },
        };
        let found = match find_var(vars, base_key) {
            Some(v) => v,
            None => {
                return Err(RateError::MissingBaseline);
            },
        };
        let base = match parse_size(found.as_str()) {
            Ok(v) => v,
            Err(e) => {
                return Err(RateError::Baseline(e));
            },
        };
        Ok(percent_of(base, &pf))
    } else {
        match parse_size(input) {
            Ok(v) => Ok(v),
            Err(e) => Err(RateError::Size(e)),
        }
    }
}

/// A rate that does not end in `%` is the size it writes, exactly, whatever
/// the baseline values are.
pub proof fn lemma_absolute_rate_is_size(
    input: Seq<char>,
    vars: Seq<(String, String)>,
    key: Seq<char>,
    v: u64,
)
    requires
        !(input.len() > 0 && input.last() == '%'),
        size_result(input) == Ok::<u64, NumError>(v),
    ensures
        rate_result(input, vars, key) == Ok::<u64, RateError>(v),
{
}

/// A rate fails to resolve only where some text cannot be read: the
/// percentage, the size, or the baseline value, or where the baseline value
/// is not there.
pub proof fn lemma_rate_errors_are_read_failures(
    input: Seq<char>,
    vars: Seq<(String, String)>,
    key: Seq<char>,
)
    ensures
        rate_result(input, vars, key) is Err <==> if input.len() > 0 && input.last() == '%' {
            float_form(input.drop_last()) is None || lookup(vars, key) is None || size_result(
                lookup(vars, key).unwrap(),
            ) is Err
        } else {
            size_result(input) is Err
        },
{
}

/// A negative percentage, or one that is not a number, of a baseline that
/// reads as a size resolves to zero.
pub proof fn lemma_negative_percent_is_zero(
    input: Seq<char>,
    vars: Seq<(String, String)>,
    key: Seq<char>,
)
    requires
        input.len() > 0,
        input.last() == '%',
        float_form(input.drop_last()) matches Some(f) && (f is NotANumber || f matches FloatForm::Finite { neg: true, .. } || f matches FloatForm::Infinite { neg: true }),
        lookup(vars, key) matches Some(b) && size_result(b) is Ok,
    ensures
        rate_result(input, vars, key) == Ok::<u64, RateError>(0),
{
}

/// A percentage with no baseline value under its name never resolves.
pub proof fn lemma_percent_needs_baseline(
    input: Seq<char>,
    vars: Seq<(String, String)>,
    key: Seq<char>,
)
    requires
        input.len() > 0,
        input.last() == '%',
        lookup(vars, key) is None,
    ensures
        rate_result(input, vars, key) is Err,
{
}

} // verus!
