//! Reading an unsigned integer out of text, as `str::parse` reads one: an
//! optional `+`, then decimal digits, and a value that fits the target type.

use vstd::prelude::*;

use crate::text::{chars_of, digits_value, is_digit, str_of};

verus! {

/// Why a text is not an unsigned integer.
#[derive(Debug, Clone, Copy, PartialEq, Eq, Structural)]
pub enum IntError {
    Empty,
    InvalidDigit,
    PosOverflow,
}

/// The digits a parse reads: the text after a leading `+`, if there is one.
pub open spec fn digits_part(s: Seq<char>) -> Seq<char> {
    if s.len() > 0 && s[0] == '+' {
        s.drop_first()
    } else {
        s
    }
}

/// The digits from position `i` on, read left to right the way the parse reads
/// them: the first character that is not a digit, or the first digit that
/// carries the value past `max`, ends the reading with that error.
pub open spec fn scan(d: Seq<char>, i: int, max: nat) -> Result<nat, IntError>
    decreases d.len() - i,
{
    if i < 0 || i >= d.len() {
        Ok(digits_value(d))
    } else if !is_digit(d[i]) {
        Err(IntError::InvalidDigit)
    } else if digits_value(d.subrange(0, i + 1)) > max {
        Err(IntError::PosOverflow)
    } else {
        scan(d, i + 1, max)
    }
}

/// What parsing `s` as an integer no larger than `max` gives.
pub open spec fn parse_spec(s: Seq<char>, max: nat) -> Result<nat, IntError> {
    if s.len() == 0 {
        Err(IntError::Empty)
    } else if s.len() == 1 && (s[0] == '+' || s[0] == '-') {
        Err(IntError::InvalidDigit)
    } else {
        scan(digits_part(s), 0, max)
    }
}

/// Every character of `d` is a decimal digit.
pub open spec fn all_digits(d: Seq<char>) -> bool {
    forall|i: int| 0 <= i < d.len() ==> is_digit(d[i])
}

proof fn lemma_digits_prefix_mono(d: Seq<char>, i: int, j: int)
    requires
        0 <= i <= j <= d.len(),
        all_digits(d.subrange(0, j)),
    ensures
        digits_value(d.subrange(0, i)) <= digits_value(d.subrange(0, j)),
    decreases j - i,
{
    if i < j {
        lemma_digits_prefix_mono(d, i, j - 1);
        assert(d.subrange(0, j).drop_last() =~= d.subrange(0, j - 1));
        assert(d.subrange(0, j).last() == d[j - 1]);
    }
}

proof fn lemma_scan_from(d: Seq<char>, i: int, max: nat)
    requires
        0 <= i <= d.len(),
        digits_value(d.subrange(0, i)) <= max,
        all_digits(d.subrange(0, i)),
    ensures
        scan(d, i, max) is Ok <==> (all_digits(d) && digits_value(d) <= max),
        scan(d, i, max) is Ok ==> scan(d, i, max) == Ok::<nat, IntError>(digits_value(d)),
    decreases d.len() - i,
{
    if i == d.len() {
        assert(d.subrange(0, i) =~= d);
    } else if !is_digit(d[i]) {
    } else {
        assert(d.subrange(0, i + 1).drop_last() =~= d.subrange(0, i));
        assert(all_digits(d.subrange(0, i + 1)));
        if digits_value(d.subrange(0, i + 1)) > max {
            if all_digits(d) {
                assert(d.subrange(0, d.len() as int) =~= d);
                lemma_digits_prefix_mono(d, i + 1, d.len() as int);
            }
        } else {
            lemma_scan_from(d, i + 1, max);
        }
    }
}

/// The reading succeeds exactly when every character after an optional `+` is
/// a digit and their value is at most `max`, and then it is that value.
pub proof fn lemma_parse_ok(s: Seq<char>, max: nat)
    ensures
        parse_spec(s, max) is Ok <==> (s.len() > 0 && !(s.len() == 1 && s[0] == '+')
            && digits_part(s).len() > 0 && all_digits(digits_part(s)) && digits_value(
            digits_part(s),
        ) <= max),
        parse_spec(s, max) is Ok ==> parse_spec(s, max) == Ok::<nat, IntError>(
            digits_value(digits_part(s)),
        ),
{
    let d = digits_part(s);
    assert(d.subrange(0, 0) =~= Seq::<char>::empty());
    lemma_scan_from(d, 0, max);
    if s.len() == 1 && s[0] == '-' {
        assert(!is_digit(s[0]));
    }
}

/// `s[lo..hi]` read as an integer no larger than `max`.
pub fn parse_range(s: &Vec<char>, lo: usize, hi: usize, max: u64) -> (r: Result<u64, IntError>)
    requires
        lo <= hi <= s@.len(),
    ensures
        match r {
            Ok(v) => v <= max && parse_spec(s@.subrange(lo as int, hi as int), max as nat) == Ok::<
                nat,
                IntError,
            >(v as nat),
            Err(e) => parse_spec(s@.subrange(lo as int, hi as int), max as nat) == Err::<
                nat,
                IntError,
            >(e),
        },
{
    let ghost t = s@.subrange(lo as int, hi as int);
    if lo == hi {
        return Err(IntError::Empty);
    }
    if hi - lo == 1 && (s[lo] == '+' || s[lo] == '-') {
        assert(t[0] == s@[lo as int]);
        return Err(IntError::InvalidDigit);
    }
    let start = if s[lo] == '+' {
        lo + 1
    } else {
        lo
    };
    assert(t[0] == s@[lo as int]);
    let ghost d = digits_part(t);
    assert(d =~= s@.subrange(start as int, hi as int));
    let mut acc: u64 = 0;
    let mut i = start;
    assert(d.subrange(0, 0) =~= Seq::<char>::empty());
    while i < hi
        invariant
            lo <= start <= i <= hi <= s@.len(),
            d == s@.subrange(start as int, hi as int),
            t == s@.subrange(lo as int, hi as int),
            parse_spec(t, max as nat) == scan(d, i - start, max as nat),
            acc as nat == digits_value(d.subrange(0, i - start)),
            acc <= max,
        decreases hi - i,
    {
        let c = s[i];
        assert(d[i - start] == c);
        if !('0' <= c && c <= '9') {
            return Err(IntError::InvalidDigit);
        }
        let x: u64 = (c as u32 - '0' as u32) as u64;
        let next: u128 = acc as u128 * 10 + x as u128;
        assert(d.subrange(0, i - start + 1).drop_last() =~= d.subrange(0, i - start));
        assert(d.subrange(0, i - start + 1).last() == c);
        assert(next == digits_value(d.subrange(0, i - start + 1)));
        if next > max as u128 {
            return Err(IntError::PosOverflow);
        }
        acc = next as u64;
        i = i + 1;
    }
    assert(d.subrange(0, i - start) =~= d);
    Ok(acc)
}

/// `s` read as a `usize`.
pub fn parse_usize(s: &str) -> (r: Result<usize, IntError>)
    ensures
        match r {
            Ok(v) => parse_spec(s@, usize::MAX as nat) == Ok::<nat, IntError>(v as nat),
            Err(e) => parse_spec(s@, usize::MAX as nat) == Err::<nat, IntError>(e),
        },
{
    let v = chars_of(s);
    assert(v@.subrange(0, v@.len() as int) =~= v@);
    match parse_range(&v, 0, v.len(), usize::MAX as u64) {
        Ok(n) => Ok(n as usize),
        Err(e) => Err(e),
    }
}

/// `s[lo..hi]` read as a `u16`.
pub fn parse_u16_range(s: &Vec<char>, lo: usize, hi: usize) -> (r: Result<u16, IntError>)
    requires
        lo <= hi <= s@.len(),
    ensures
        match r {
            Ok(v) => parse_spec(s@.subrange(lo as int, hi as int), u16::MAX as nat) == Ok::<
                nat,
                IntError,
            >(v as nat),
            Err(e) => parse_spec(s@.subrange(lo as int, hi as int), u16::MAX as nat) == Err::<
                nat,
                IntError,
            >(e),
        },
{
    match parse_range(s, lo, hi, u16::MAX as u64) {
        Ok(n) => Ok(n as u16),
        Err(e) => Err(e),
    }
}

pub open spec fn int_error_message(e: IntError) -> Seq<char> {
    match e {
        IntError::Empty => "cannot parse integer from empty string"@,
        IntError::InvalidDigit => "invalid digit found in string"@,
        IntError::PosOverflow => "number too large to fit in target type"@,
    }
}

impl IntError {
    /// The refusal, in the words `ParseIntError` uses.
    pub fn message(&self) -> (r: String)
        ensures
            r@ == int_error_message(*self),
    {
        match self {
            IntError::Empty => str_of("cannot parse integer from empty string"),
            IntError::InvalidDigit => str_of("invalid digit found in string"),
            IntError::PosOverflow => str_of("number too large to fit in target type"),
        }
    }
}

} // verus!
