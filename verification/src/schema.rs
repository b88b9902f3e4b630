//! The tag schema service: dynamic default values computed from a small
//! formula language over the current date, `=[TODAY]` with an optional
//! day offset.
use vstd::prelude::*;
use vstd::string::StrSliceExecFns;

use crate::text::digit_val;
use crate::text::digits_end;
use crate::text::digits_end_from;
use crate::text::digits_value;
use crate::text::is_digit_char;
use crate::text::lemma_digits_value_nonneg;
use crate::text::matches_at;
use crate::text::occurs_at;
use crate::text::seq_contains;

verus! {

/// The widest day offset the service accepts: it keeps the shifted date
/// well inside the calendar library's range.
pub const MAX_DAY_OFFSET: i64 = 36_500_000;

/// The first position at or after `i` that does not hold `c`.
pub open spec fn skip_char(s: Seq<char>, i: int, c: char) -> int
    decreases s.len() - i,
{
    if 0 <= i < s.len() && s[i] == c {
        skip_char(s, i + 1, c)
    } else {
        i
    }
}

/// The first position at or after `i` that is not a space.
pub open spec fn skip_spaces(s: Seq<char>, i: int) -> int
    decreases s.len() - i,
{
    if 0 <= i < s.len() && s[i] == ' ' {
        skip_spaces(s, i + 1)
    } else {
        i
    }
}

/// The day offset a formula denotes, if it is well formed: leading `=`
/// signs, then `[TODAY]`, then optionally a sign and a day count, spaces
/// allowed between the parts.
pub open spec fn formula_offset(s: Seq<char>) -> Option<int> {
    let i0 = skip_char(s, 0, '=');
    let i1 = skip_spaces(s, i0);
    if !occurs_at("[TODAY]"@, s, i1) {
        None
    } else {
        let i2 = skip_spaces(s, i1 + 7);
        if i2 == s.len() {
            Some(0)
        } else if s[i2] == '+' || s[i2] == '-' {
            let i3 = skip_spaces(s, i2 + 1);
            let i4 = digits_end(s, i3);
            if i4 == i3 || skip_spaces(s, i4) != s.len() {
                None
            } else {
                let v = digits_value(s.subrange(i3, i4));
                if s[i2] == '+' {
                    Some(v)
                } else {
                    Some(-v)
                }
            }
        } else {
            None
        }
    }
}

/// A position is never skipped backwards, and what was skipped holds the
/// skipped character.
proof fn lemma_skip_char_bounds(s: Seq<char>, i: int, c: char)
    requires
        0 <= i <= s.len(),
    ensures
        i <= skip_char(s, i, c) <= s.len(),
        forall|j: int| i <= j < skip_char(s, i, c) ==> s[j] == c,
        skip_char(s, i, c) < s.len() ==> s[skip_char(s, i, c)] != c,
    decreases s.len() - i,
{
    if 0 <= i < s.len() && s[i] == c {
        lemma_skip_char_bounds(s, i + 1, c);
    }
}

/// Skips `c` characters from position `i`.
fn skip_char_from(s: &str, i: usize, c: char) -> (r: usize)
    requires
        i <= s@.len(),
    ensures
        r == skip_char(s@, i as int, c),
        i <= r <= s@.len(),
{
    proof {
        lemma_skip_char_bounds(s@, i as int, c);
    }
    let len: usize = s.unicode_len();
    let mut j: usize = i;
    while j < len && s.get_char(j) == c
        invariant
            i <= j <= len,
            len == s@.len(),
            skip_char(s@, i as int, c) == skip_char(s@, j as int, c),
        decreases len - j,
    {
        j = j + 1;
    }
    j
}

/// Skips spaces from position `i`.
fn skip_spaces_from(s: &str, i: usize) -> (r: usize)
    requires
        i <= s@.len(),
    ensures
        r == skip_spaces(s@, i as int),
        i <= r <= s@.len(),
{
    let len: usize = s.unicode_len();
    let mut j: usize = i;
    while j < len && s.get_char(j) == ' '
        invariant
            i <= j <= len,
            len == s@.len(),
            skip_spaces(s@, i as int) == skip_spaces(s@, j as int),
        decreases len - j,
    {
        j = j + 1;
    }
    j
}

/// Relies on `chrono::Local::now`, `chrono::Duration::days` and
/// `DateTime::to_rfc3339`: shifts the current local time by the given
/// days and writes it in RFC 3339 form, which always carries a `T`
/// separator and a signed zone offset.
#[verifier::external_body]
fn rfc3339_today_offset(days: i64) -> (r: String)
    requires
        -MAX_DAY_OFFSET <= days <= MAX_DAY_OFFSET,
    ensures
        seq_contains("T"@, r@),
        seq_contains("+"@, r@) || seq_contains("-"@, r@),
{
    let base = chrono::Local::now();
    let shifted = base + chrono::Duration::days(days);
    shifted.to_rfc3339()
}

/// The tag schema service: dynamic default values for date tags.
pub struct TagSchemaService;

impl TagSchemaService {
    /// A fresh service handle.
    pub fn new() -> (r: TagSchemaService) {
        TagSchemaService
    }

    /// Computes a dynamic default value: the current date shifted by the
    /// formula's day offset, in RFC 3339 form. Exactly the well-formed
    /// formulas whose offset stays within the calendar range succeed, and
    /// every result carries the `T` separator and a signed zone offset.
    pub fn calculate_dynamic_default_value(&self, formula: &str) -> (r: Result<
        String,
        String,
    >)
        ensures
            r is Ok <==> (formula_offset(formula@) matches Some(d) && -MAX_DAY_OFFSET <= d
                <= MAX_DAY_OFFSET),
            r matches Ok(t) ==> seq_contains("T"@, t@) && (seq_contains("+"@, t@)
                || seq_contains("-"@, t@)),
    {
        let len: usize = formula.unicode_len();
        let i0 = skip_char_from(formula, 0, '=');
        let i1 = skip_spaces_from(formula, i0);
        let marker = "[TODAY]";
        proof {
            reveal_strlit("[TODAY]");
        }
        if len < 7 || i1 > len - 7 || !matches_at(marker, formula, i1) {
            proof {
                if len < 7 || i1 > len - 7 {
                    assert(!occurs_at("[TODAY]"@, formula@, i1 as int));
                }
            }
            return Err(String::from_str(
                "Invalid formula format. Supported format: `=[TODAY]+N` or `=[TODAY]-N`",
            ));
        }
        let i2 = skip_spaces_from(formula, i1 + 7);
        if i2 == len {
            return Ok(rfc3339_today_offset(0));
        }
        let sign = formula.get_char(i2);
        if sign != '+' && sign != '-' {
            return Err(String::from_str(
                "Invalid formula format. Supported format: `=[TODAY]+N` or `=[TODAY]-N`",
            ));
        }
        let i3 = skip_spaces_from(formula, i2 + 1);
        let i4 = digits_end_from(formula, i3);
        let mut i: usize = i3;
        let mut acc: u64 = 0;
        let mut too_big: bool = false;
        proof {
            assert(formula@.subrange(i3 as int, i3 as int) =~= Seq::<char>::empty());
        }
        while i < i4
            invariant
                i3 <= i <= i4 <= len,
                len == formula@.len(),
                forall|j: int| i3 <= j < i4 ==> is_digit_char(#[trigger] formula@[j]),
                !too_big ==> acc as int == digits_value(
                    formula@.subrange(i3 as int, i as int),
                ) && acc <= MAX_DAY_OFFSET as u64,
                too_big ==> digits_value(formula@.subrange(i3 as int, i as int))
                    > MAX_DAY_OFFSET,
            decreases i4 - i,
        {
            let c = formula.get_char(i);
            let d: u64 = (c as u32 - '0' as u32) as u64;
            proof {
                assert(formula@.subrange(i3 as int, i + 1).drop_last() =~= formula@.subrange(
                    i3 as int,
                    i as int,
                ));
                assert(formula@.subrange(i3 as int, i + 1).last() == formula@[i as int]);
                if !too_big {
                    lemma_digits_value_nonneg(formula@.subrange(i3 as int, i as int));
                } else {
                    assert(digits_value(formula@.subrange(i3 as int, i + 1)) == digits_value(
                        formula@.subrange(i3 as int, i as int),
                    ) * 10 + digit_val(formula@[i as int]));
                    assert(digits_value(formula@.subrange(i3 as int, i as int)) * 10
                        > MAX_DAY_OFFSET * 10) by (nonlinear_arith)
                        requires
                            digits_value(formula@.subrange(i3 as int, i as int))
                                > MAX_DAY_OFFSET,
                    ;
                }
            }
            if !too_big {
                let next: u64 = acc * 10 + d;
                if next > MAX_DAY_OFFSET as u64 {
                    too_big = true;
                } else {
                    acc = next;
                }
                proof {
                    if too_big {
                        assert(digits_value(formula@.subrange(i3 as int, i + 1))
                            > MAX_DAY_OFFSET);
                    }
                }
            }
            i = i + 1;
        }
        let i5 = skip_spaces_from(formula, i4);
        if i4 == i3 || i5 != len {
            return Err(String::from_str(
                "Invalid formula format. Supported format: `=[TODAY]+N` or `=[TODAY]-N`",
            ));
        }
        if too_big {
            return Err(String::from_str(
                "Day offset is out of the supported range",
            ));
        }
        proof {
            assert(formula@.subrange(i3 as int, i4 as int) =~= formula@.subrange(
                i3 as int,
                i4 as int,
            ));
        }
        let days: i64 = if sign == '+' {
            acc as i64
        } else {
            -(acc as i64)
        };
        Ok(rfc3339_today_offset(days))
    }
}

} // verus!
