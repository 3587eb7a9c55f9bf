//! The parsing of the numeric options of the command line.
use vstd::prelude::*;

verus! {

/// Every character is an ASCII decimal digit.
pub open spec fn all_digits(s: Seq<char>) -> bool {
    forall|i: int| 0 <= i < s.len() ==> '0' <= #[trigger] s[i] <= '9'
}

/// The number that decimal digits write.
pub open spec fn digits_value(s: Seq<char>) -> nat
    decreases s.len(),
{
    if s.len() == 0 {
        0
    } else {
        digits_value(s.drop_last()) * 10 + ((s.last() as u32) - ('0' as u32)) as nat
    }
}

/// The digits of a decimal number with an optional leading plus sign.
pub open spec fn unsigned_digits(s: Seq<char>) -> Option<Seq<char>> {
    if s.len() > 1 && s[0] == '+' && all_digits(s.drop_first()) {
        Some(s.drop_first())
    } else if s.len() > 0 && all_digits(s) {
        Some(s)
    } else {
        None
    }
}

/// The digits from `start` to `end` have the value that the first of them and those
/// up to `end - 1` give, times ten, plus the last.
proof fn lemma_digits_step(s: Seq<char>, start: int, end: int)
    requires
        0 <= start < end <= s.len(),
    ensures
        digits_value(s.subrange(start, end)) == digits_value(s.subrange(start, end - 1)) * 10 + ((
        s[end - 1] as u32) - ('0' as u32)) as nat,
{
    assert(s.subrange(start, end).drop_last() =~= s.subrange(start, end - 1));
}

/// Parses a `u32` as `str::parse::<u32>` does: an optional `+` followed by decimal
/// digits gives their value where it fits in a `u32`; anything else, and a value that
/// does not fit, is an error.
fn parse_u32(value: &str) -> (r: Option<u32>)
    ensures
        match unsigned_digits(value@) {
            Some(d) => if digits_value(d) <= u32::MAX {
                r == Some(digits_value(d) as u32)
            } else {
                r is None
            },
            None => r is None,
        },
{
    let ghost s = value@;
    let n = value.unicode_len();
    if n == 0 {
        return None;
    }
    let mut start: usize = 0;
    if n > 1 && value.get_char(0) == '+' {
        start = 1;
    }
    let mut acc: u64 = 0;
    let mut overflow = false;
    let mut i: usize = start;
    while i < n
        invariant
            s == value@,
            n == s.len(),
            start <= i <= n,
            start == 0 || (start == 1 && n > 1 && s[0] == '+'),
            start == 0 ==> !(n > 1 && s[0] == '+'),
            all_digits(s.subrange(start as int, i as int)),
            !overflow ==> acc == digits_value(s.subrange(start as int, i as int)) && acc <= u32::MAX,
            overflow ==> digits_value(s.subrange(start as int, i as int)) > u32::MAX,
        decreases n - i,
    {
        let c = value.get_char(i);
        if !('0' <= c && c <= '9') {
            proof {
                assert(s[i as int] == c);
                assert(!all_digits(s));
                if start == 1 {
                    assert(s.drop_first()[i - 1] == c);
                    assert(!all_digits(s.drop_first()));
                }
                assert(unsigned_digits(s) is None);
            }
            return None;
        }
        let d: u64 = ((c as u32) - ('0' as u32)) as u64;
        proof {
            lemma_digits_step(s, start as int, i + 1);
            assert forall|j: int| 0 <= j < (i + 1 - start) implies '0' <= #[trigger] s.subrange(
                start as int,
                i + 1,
            )[j] <= '9' by {
                if j < i - start {
                    assert(s.subrange(start as int, i + 1)[j] == s.subrange(start as int, i as int)[j]);
                }
            }
        }
        if !overflow {
            acc = acc * 10 + d;
            if acc > 0xffff_ffffu64 {
                overflow = true;
            }
        }
        i = i + 1;
    }
    proof {
        if start == 1 {
            assert(s.subrange(1, n as int) =~= s.drop_first());
        } else {
            assert(s.subrange(0, n as int) =~= s);
            if n > 1 && s[0] == '+' {
                assert(false);
            }
        }
    }
    if overflow {
        None
    } else {
        Some(acc as u32)
    }
}

/// The error of a value that is not a number.
pub open spec fn not_a_number_message() -> Seq<char> {
    "Value is not a valid unsigned integer"@
}

/// The error of a zero.
pub open spec fn zero_message() -> Seq<char> {
    "Value must not be zero"@
}

/// Parses the value of the options for the least number of repetitions and the least
/// substring length: a positive `u32`.
pub fn repetition_options_parser(value: &str) -> (r: Result<u32, String>)
    ensures
        match unsigned_digits(value@) {
            Some(d) => if digits_value(d) > u32::MAX {
                r is Err && r->Err_0@ == not_a_number_message()
            } else if digits_value(d) == 0 {
                r is Err && r->Err_0@ == zero_message()
            } else {
                r == Ok::<u32, String>(digits_value(d) as u32)
            },
            None => r is Err && r->Err_0@ == not_a_number_message(),
        },
{
    match parse_u32(value) {
        Some(parsed_value) => {
            if parsed_value > 0 {
                Ok(parsed_value)
            } else {
                Err("Value must not be zero".to_owned())
            }
        },
        None => Err("Value is not a valid unsigned integer".to_owned()),
    }
}

} // verus!
