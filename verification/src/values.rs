//! The typed metadata value model: a closed set of scalar and array shapes
//! with an exact decimal number representation and a canonical text form.
use vstd::prelude::*;
use vstd::string::StringExecFns;

use vstd::string::StrSliceExecFns;

use crate::text::decimal_text;
use crate::text::digits_end;
use crate::text::digits_end_from;
use crate::text::digits_value;
use crate::text::int_text;
use crate::text::is_digit_char;
use crate::text::lemma_digits_value_nonneg;
use crate::text::push_decimal;
use crate::text::push_int;
use crate::text::str_eq;

verus! {

/// The fixed decimal scale: decimal values carry this many micro-units per
/// whole unit.
pub const SCALE: i64 = 1_000_000;

/// A decimal number stored exactly as a count of micro-units.
#[derive(Clone, Copy, Debug, PartialEq, Eq, Structural)]
pub struct Decimal {
    pub micros: i64,
}

impl Decimal {
    /// The decimal representing a whole number of units, if it fits.
    pub fn from_units(units: i64) -> (r: Option<Decimal>)
        ensures
            r matches Some(d) ==> d.micros == units * SCALE,
            r is Some <==> i64::MIN <= units * SCALE <= i64::MAX,
    {
        match units.checked_mul(SCALE) {
            Some(m) => Some(Decimal { micros: m }),
            None => None,
        }
    }
}


/// The exact value of an aggregated metric, as micro-units of the fixed
/// decimal scale. The wider representation keeps every sum of task values
/// representable.
#[derive(Clone, Copy, Debug, PartialEq, Eq, Structural)]
pub struct MetricValue {
    pub micros: i128,
}

/// One metadata value attached to a record key.
#[derive(Clone, Debug)]
pub enum TagValue {
    String(String),
    Number(i64),
    Float(Decimal),
    Bool(bool),
    Array(Vec<String>),
}

/// The views of a sequence of strings.
pub open spec fn str_views(items: Seq<String>) -> Seq<Seq<char>> {
    items.map_values(|s: String| s@)
}

/// `items` joined by `sep`.
pub open spec fn joined(items: Seq<Seq<char>>, sep: Seq<char>) -> Seq<char>
    decreases items.len(),
{
    if items.len() == 0 {
        Seq::empty()
    } else if items.len() == 1 {
        items[0]
    } else {
        joined(items.drop_last(), sep) + sep + items.last()
    }
}

/// The canonical text of a tag value: strings as they are, numbers in
/// decimal, booleans as `true`/`false`, arrays bracketed and comma-joined.
pub open spec fn tag_value_text(v: TagValue) -> Seq<char> {
    match v {
        TagValue::String(s) => s@,
        TagValue::Number(n) => int_text(n as int),
        TagValue::Float(d) => decimal_text(d.micros as int),
        TagValue::Bool(b) => if b {
            "true"@
        } else {
            "false"@
        },
        TagValue::Array(a) => seq!['['] + joined(str_views(a@), seq![',', ' ']) + seq![']'],
    }
}

/// Clones a vector of strings element by element.
pub fn clone_strings(items: &Vec<String>) -> (r: Vec<String>)
    ensures
        r@ == items@,
{
    let mut r: Vec<String> = Vec::new();
    let mut i: usize = 0;
    while i < items.len()
        invariant
            0 <= i <= items@.len(),
            r@ =~= items@.take(i as int),
        decreases items@.len() - i,
    {
        r.push(items[i].clone());
        proof {
            assert(r@ =~= items@.take(i + 1));
        }
        i = i + 1;
    }
    proof {
        assert(items@.take(items@.len() as int) =~= items@);
    }
    r
}

impl TagValue {
    /// The canonical text of this value, as a fresh string.
    pub fn to_string_value(&self) -> (r: String)
        ensures
            r@ == tag_value_text(*self),
    {
        match self {
            TagValue::String(s) => s.clone(),
            TagValue::Number(n) => {
                let mut r = String::new();
                push_int(&mut r, *n as i128);
                r
            },
            TagValue::Float(d) => {
                let mut r = String::new();
                push_decimal(&mut r, *d);
                r
            },
            TagValue::Bool(b) => {
                if *b {
                    String::from_str("true")
                } else {
                    String::from_str("false")
                }
            },
            TagValue::Array(a) => {
                let mut r = String::new();
                proof {
                    reveal_strlit("[");
                }
                r.append("[");
                let mut i: usize = 0;
                while i < a.len()
                    invariant
                        0 <= i <= a@.len(),
                        r@ == seq!['['] + joined(str_views(a@.take(i as int)), seq![',', ' ']),
                    decreases a@.len() - i,
                {
                    if i > 0 {
                        proof {
                            reveal_strlit(", ");
                        }
                        r.append(", ");
                    }
                    r.append(a[i].as_str());
                    proof {
                        reveal_strlit("[");
                        reveal_strlit(", ");
                        let ghost vs = str_views(a@.take(i + 1));
                        assert(vs.drop_last() =~= str_views(a@.take(i as int)));
                        assert(vs.last() == a@[i as int]@);
                        if i > 0 {
                            assert(joined(vs, seq![',', ' ']) == joined(
                                vs.drop_last(),
                                seq![',', ' '],
                            ) + seq![',', ' '] + vs.last());
                        } else {
                            assert(vs.len() == 1);
                        }
                        assert(r@ =~= seq!['['] + joined(vs, seq![',', ' ']));
                    }
                    i = i + 1;
                }
                proof {
                    reveal_strlit("]");
                    assert(a@.take(a@.len() as int) =~= a@);
                }
                r.append("]");
                proof {
                    assert(r@ =~= tag_value_text(*self));
                }
                r
            },
        }
    }
}

/// Whether the text is an integer literal: an optional minus sign, then
/// digits to the end.
pub open spec fn is_int_literal(s: Seq<char>) -> bool {
    if s.len() > 0 && s[0] == '-' {
        s.len() > 1 && digits_end(s, 1) == s.len()
    } else {
        s.len() > 0 && digits_end(s, 0) == s.len()
    }
}

/// The value of an integer literal.
pub open spec fn int_literal_value(s: Seq<char>) -> int {
    if s.len() > 0 && s[0] == '-' {
        -digits_value(s.subrange(1, s.len() as int))
    } else {
        digits_value(s)
    }
}

/// The micro-unit factor of a fraction written with `n` digits.
pub open spec fn frac_factor(n: int) -> int {
    if n == 1 {
        100_000
    } else if n == 2 {
        10_000
    } else if n == 3 {
        1_000
    } else if n == 4 {
        100
    } else if n == 5 {
        10
    } else {
        1
    }
}

/// Whether the text is a decimal literal: an optional minus sign, digits,
/// a point, and one to six fraction digits to the end.
pub open spec fn is_float_literal(s: Seq<char>) -> bool {
    let b: int = if s.len() > 0 && s[0] == '-' {
        1
    } else {
        0
    };
    let de = digits_end(s, b);
    &&& de > b
    &&& de < s.len()
    &&& s[de] == '.'
    &&& digits_end(s, de + 1) == s.len()
    &&& 1 <= s.len() - (de + 1) <= 6
}

/// The micro-unit value of a decimal literal.
pub open spec fn float_literal_micros(s: Seq<char>) -> int {
    let b: int = if s.len() > 0 && s[0] == '-' {
        1
    } else {
        0
    };
    let de = digits_end(s, b);
    let mag = digits_value(s.subrange(b, de)) * 1_000_000 + digits_value(
        s.subrange(de + 1, s.len() as int),
    ) * frac_factor(s.len() - (de + 1));
    if b == 1 {
        -mag
    } else {
        mag
    }
}

/// Whether the cascade reads the text as an integer.
pub open spec fn reads_as_int(s: Seq<char>) -> bool {
    is_int_literal(s) && i64::MIN <= int_literal_value(s) <= i64::MAX
}

/// Whether the cascade reads the text as a decimal.
pub open spec fn reads_as_float(s: Seq<char>) -> bool {
    !reads_as_int(s) && is_float_literal(s) && i64::MIN <= float_literal_micros(s)
        <= i64::MAX
}

/// Whether the cascade reads the text as a boolean.
pub open spec fn reads_as_bool(s: Seq<char>) -> bool {
    !reads_as_int(s) && !reads_as_float(s) && (s == "true"@ || s == "false"@)
}

/// Reads the decimal digits in `s[from..to]`, `None` when their value
/// leaves the magnitude `cap`.
fn digits_to_u64(s: &str, from: usize, to: usize, cap: u64) -> (r: Option<u64>)
    requires
        from <= to <= s@.len(),
        forall|j: int| from <= j < to ==> is_digit_char(#[trigger] s@[j]),
    ensures
        match r {
            Some(v) => v as int == digits_value(s@.subrange(from as int, to as int)) && v
                <= cap,
            None => digits_value(s@.subrange(from as int, to as int)) > cap,
        },
{
    let mut i: usize = from;
    let mut acc: u64 = 0;
    proof {
        assert(s@.subrange(from as int, from as int) =~= Seq::<char>::empty());
    }
    while i < to
        invariant
            from <= i <= to <= s@.len(),
            forall|j: int| from <= j < to ==> is_digit_char(#[trigger] s@[j]),
            acc as int == digits_value(s@.subrange(from as int, i as int)),
            acc <= cap,
        decreases to - i,
    {
        let c = s.get_char(i);
        let d: u64 = (c as u32 - '0' as u32) as u64;
        proof {
            assert(s@.subrange(from as int, i + 1).drop_last() =~= s@.subrange(
                from as int,
                i as int,
            ));
            assert(s@.subrange(from as int, i + 1).last() == s@[i as int]);
            lemma_digits_value_nonneg(s@.subrange(from as int, i as int));
        }
        let next: u128 = acc as u128 * 10 + d as u128;
        if next > cap as u128 {
            proof {
                lemma_digits_tail_grows(s@, from as int, i + 1, to as int);
            }
            return None;
        }
        acc = next as u64;
        i = i + 1;
    }
    proof {
        assert(s@.subrange(from as int, to as int) =~= s@.subrange(from as int, to as int));
    }
    Some(acc)
}

/// A digit run's value only grows as it extends to the right.
proof fn lemma_digits_tail_grows(s: Seq<char>, from: int, mid: int, to: int)
    requires
        0 <= from <= mid <= to <= s.len(),
        forall|j: int| from <= j < to ==> is_digit_char(#[trigger] s[j]),
    ensures
        digits_value(s.subrange(from, to)) >= digits_value(s.subrange(from, mid)),
    decreases to - mid,
{
    if mid < to {
        lemma_digits_tail_grows(s, from, mid + 1, to);
        assert(s.subrange(from, mid + 1).drop_last() =~= s.subrange(from, mid));
        assert(s.subrange(from, mid + 1).last() == s[mid]);
        lemma_digits_value_nonneg(s.subrange(from, mid));
        let v = digits_value(s.subrange(from, mid));
        assert(v * 10 >= v) by (nonlinear_arith)
            requires
                v >= 0,
        ;
    }
}

impl TagValue {
    /// Reads a raw scalar text by the fixed precedence: an integer
    /// literal, then a decimal literal, then a boolean literal, and any
    /// other text as a string. Sequences never reach this reading: the
    /// caller recognises them from the source's own structure and builds
    /// an array value directly. Literals beyond the representable range
    /// read as text.
    pub fn infer(raw: &str) -> (r: TagValue)
        ensures
            reads_as_int(raw@) ==> (r matches TagValue::Number(n) && n as int
                == int_literal_value(raw@)),
            reads_as_float(raw@) ==> (r matches TagValue::Float(d) && d.micros as int
                == float_literal_micros(raw@)),
            reads_as_bool(raw@) ==> (r matches TagValue::Bool(b) && (b <==> raw@
                == "true"@)),
            !reads_as_int(raw@) && !reads_as_float(raw@) && !reads_as_bool(raw@) ==> (r
                matches TagValue::String(t) && t@ == raw@),
    {
        let len: usize = raw.unicode_len();
        let neg: bool = len > 0 && raw.get_char(0) == '-';
        let b: usize = if neg {
            1
        } else {
            0
        };
        let de = digits_end_from(raw, b);
        if de > b && de == len {
            // integer shaped; out-of-range magnitudes fall through to text
            let cap: u64 = if neg {
                9_223_372_036_854_775_808
            } else {
                9_223_372_036_854_775_807
            };
            match digits_to_u64(raw, b, de, cap) {
                Some(mag) => {
                    let n: i64 = if neg {
                        (-(mag as i128)) as i64
                    } else {
                        mag as i64
                    };
                    proof {
                        if neg {
                            assert(raw@.subrange(1, raw@.len() as int) =~= raw@.subrange(
                                b as int,
                                de as int,
                            ));
                        } else {
                            assert(raw@.subrange(b as int, de as int) =~= raw@);
                        }
                        assert(reads_as_int(raw@));
                    }
                    return TagValue::Number(n);
                },
                None => {
                    proof {
                        if neg {
                            assert(raw@.subrange(1, raw@.len() as int) =~= raw@.subrange(
                                b as int,
                                de as int,
                            ));
                        } else {
                            assert(raw@.subrange(0, raw@.len() as int) =~= raw@);
                            assert(raw@.subrange(b as int, de as int) =~= raw@);
                        }
                        assert(!reads_as_int(raw@));
                        assert(!is_float_literal(raw@));
                        assert(raw@ != "true"@ && raw@ != "false"@) by {
                            reveal_strlit("true");
                            reveal_strlit("false");
                            if raw@ == "true"@ {
                                assert(raw@[0] == 't');
                                assert(is_digit_char(raw@[b as int]));
                            }
                            if raw@ == "false"@ {
                                assert(raw@[0] == 'f');
                                assert(is_digit_char(raw@[b as int]));
                            }
                        }
                    }
                    return TagValue::String(String::from_str(raw));
                },
            }
        }
        if de > b && de < len && raw.get_char(de) == '.' {
            let fe = digits_end_from(raw, de + 1);
            if fe == len && len - (de + 1) >= 1 && len - (de + 1) <= 6 {
                // decimal shaped; the integer reading cannot apply
                proof {
                    assert(!is_int_literal(raw@)) by {
                        if is_int_literal(raw@) {
                            assert(digits_end(raw@, b as int) == raw@.len());
                        }
                    }
                    assert(is_float_literal(raw@));
                }
                let fl: usize = len - (de + 1);
                let factor: u64 = if fl == 1 {
                    100_000
                } else if fl == 2 {
                    10_000
                } else if fl == 3 {
                    1_000
                } else if fl == 4 {
                    100
                } else if fl == 5 {
                    10
                } else {
                    1
                };
                let units = digits_to_u64(raw, b, de, 9_223_372_036_854);
                let frac = match digits_to_u64(raw, de + 1, len, 999_999) {
                    Some(f) => f,
                    None => {
                        proof {
                            lemma_frac_fits(raw@, de + 1, len as int);
                        }
                        0
                    },
                };
                match units {
                    Some(u) => {
                        proof {
                            assert(u <= 9_223_372_036_854);
                            assert(frac <= 999_999);
                            assert(factor <= 100_000);
                            assert(u as int * 1_000_000 <= 9_223_372_036_854_000_000int)
                                by (nonlinear_arith)
                                requires
                                    0 <= u <= 9_223_372_036_854,
                            ;
                            assert(frac as int * factor as int <= 99_999_900_000int)
                                by (nonlinear_arith)
                                requires
                                    0 <= frac <= 999_999,
                                    0 <= factor <= 100_000,
                            ;
                        }
                        let mag: u128 = (u as u128) * 1_000_000 + (frac as u128) * (
                        factor as u128);
                        let fits: bool = if neg {
                            mag <= 9_223_372_036_854_775_808
                        } else {
                            mag <= 9_223_372_036_854_775_807
                        };
                        if fits {
                            let micros: i64 = if neg {
                                (-(mag as i128)) as i64
                            } else {
                                mag as u64 as i64
                            };
                            proof {
                                lemma_frac_bound(raw@, de + 1, len as int);
                                assert(reads_as_float(raw@));
                            }
                            return TagValue::Float(Decimal { micros });
                        }
                        proof {
                            lemma_frac_bound(raw@, de + 1, len as int);
                            assert(!reads_as_float(raw@));
                            assert(!reads_as_bool(raw@)) by {
                                lemma_not_bool_shaped(raw@, b as int);
                            }
                        }
                        return TagValue::String(String::from_str(raw));
                    },
                    None => {
                        proof {
                            lemma_frac_bound(raw@, de + 1, len as int);
                            lemma_digits_value_nonneg(raw@.subrange(
                                de + 1,
                                raw@.len() as int,
                            ));
                            assert(digits_value(raw@.subrange(b as int, de as int))
                                * 1_000_000 > 9_223_372_036_854_000_000int)
                                by (nonlinear_arith)
                                requires
                                    digits_value(raw@.subrange(b as int, de as int))
                                        > 9_223_372_036_854,
                            ;
                            assert(frac_factor(raw@.len() - (de + 1)) >= 1);
                            assert(digits_value(raw@.subrange(de + 1, raw@.len() as int))
                                * frac_factor(raw@.len() - (de + 1)) >= 0)
                                by (nonlinear_arith)
                                requires
                                    digits_value(raw@.subrange(de + 1, raw@.len() as int))
                                        >= 0,
                                    frac_factor(raw@.len() - (de + 1)) >= 1,
                            ;
                            assert(!reads_as_float(raw@));
                            assert(!reads_as_bool(raw@)) by {
                                lemma_not_bool_shaped(raw@, b as int);
                            }
                        }
                        return TagValue::String(String::from_str(raw));
                    },
                }
            }
        }
        proof {
            assert(!reads_as_int(raw@)) by {
                if is_int_literal(raw@) {
                    if raw@.len() > 0 && raw@[0] == '-' {
                        assert(digits_end(raw@, 1) == raw@.len());
                        assert(de as int == digits_end(raw@, b as int));
                    } else {
                        assert(digits_end(raw@, 0) == raw@.len());
                    }
                }
            }
            assert(!reads_as_float(raw@)) by {
                if is_float_literal(raw@) {
                    assert(de as int == digits_end(raw@, b as int));
                }
            }
        }
        if str_eq(raw, "true") {
            return TagValue::Bool(true);
        }
        if str_eq(raw, "false") {
            return TagValue::Bool(false);
        }
        TagValue::String(String::from_str(raw))
    }
}

/// A fraction of at most six digits always fits its counter.
proof fn lemma_frac_fits(s: Seq<char>, from: int, to: int)
    requires
        0 <= from <= to <= s.len(),
        to - from <= 6,
        forall|j: int| from <= j < to ==> is_digit_char(#[trigger] s[j]),
    ensures
        digits_value(s.subrange(from, to)) <= 999_999,
{
    lemma_frac_bound(s, from, to);
}

/// Ten to the `n`th.
spec fn ten_pow(n: int) -> int
    decreases n,
{
    if n <= 0 {
        1
    } else {
        10 * ten_pow(n - 1)
    }
}

/// A digit run's value stays below ten to its length.
proof fn lemma_digits_pow_bound(s: Seq<char>, from: int, to: int)
    requires
        0 <= from <= to <= s.len(),
        forall|j: int| from <= j < to ==> is_digit_char(#[trigger] s[j]),
    ensures
        0 <= digits_value(s.subrange(from, to)) < ten_pow(to - from),
    decreases to - from,
{
    if to == from {
        assert(s.subrange(from, to) =~= Seq::<char>::empty());
    } else {
        lemma_digits_pow_bound(s, from, to - 1);
        assert(s.subrange(from, to).drop_last() =~= s.subrange(from, to - 1));
        assert(s.subrange(from, to).last() == s[to - 1]);
        let v = digits_value(s.subrange(from, to - 1));
        let p = ten_pow(to - 1 - from);
        assert(ten_pow(to - from) == 10 * p);
        assert(v * 10 + 9 < 10 * p) by (nonlinear_arith)
            requires
                0 <= v < p,
        ;
    }
}

/// A fraction of at most six digits stays below one million.
proof fn lemma_frac_bound(s: Seq<char>, from: int, to: int)
    requires
        0 <= from <= to <= s.len(),
        to - from <= 6,
        forall|j: int| from <= j < to ==> is_digit_char(#[trigger] s[j]),
    ensures
        0 <= digits_value(s.subrange(from, to)) <= 999_999,
{
    lemma_digits_pow_bound(s, from, to);
    assert(ten_pow(0) == 1);
    assert(ten_pow(1) == 10);
    assert(ten_pow(2) == 100);
    assert(ten_pow(3) == 1_000);
    assert(ten_pow(4) == 10_000);
    assert(ten_pow(5) == 100_000);
    assert(ten_pow(6) == 1_000_000);
    assert(ten_pow(to - from) <= 1_000_000) by {
        if to - from <= 0 {
        } else if to - from == 1 {
        } else if to - from == 2 {
        } else if to - from == 3 {
        } else if to - from == 4 {
        } else if to - from == 5 {
        } else {
            assert(to - from == 6);
        }
    }
}

/// A text whose leading run is digits is not a boolean literal.
proof fn lemma_not_bool_shaped(s: Seq<char>, b: int)
    requires
        0 <= b < s.len(),
        is_digit_char(s[b]),
        b == 0 || s[0] == '-',
    ensures
        s != "true"@ && s != "false"@,
{
    reveal_strlit("true");
    reveal_strlit("false");
    if s == "true"@ {
        assert(s[0] == 't');
        if b == 0 {
        } else {
            assert(s[0] == '-');
        }
    }
    if s == "false"@ {
        assert(s[0] == 'f');
        if b == 0 {
        } else {
            assert(s[0] == '-');
        }
    }
}

} // verus!
