//! Verified text utilities: lexicographic comparison, prefix/suffix/substring
//! tests, separator replacement and decimal formatting over `String` values,
//! specified against their `Seq<char>` views.
use vstd::prelude::*;
use vstd::string::StrSliceExecFns;
use vstd::string::StringExecFns;

use crate::values::Decimal;
use vstd::arithmetic::div_mod::lemma_fundamental_div_mod;
use vstd::arithmetic::div_mod::lemma_div_denominator;

verus! {

/// Lexicographic order on character sequences, by code point.
pub open spec fn lex_le(a: Seq<char>, b: Seq<char>) -> bool
    decreases a.len(),
{
    if a.len() == 0 {
        true
    } else if b.len() == 0 {
        false
    } else if a[0] as int != b[0] as int {
        (a[0] as int) < (b[0] as int)
    } else {
        lex_le(a.drop_first(), b.drop_first())
    }
}

/// `lex_le` relates every pair of sequences one way or the other.
pub proof fn lemma_lex_le_total(a: Seq<char>, b: Seq<char>)
    ensures
        lex_le(a, b) || lex_le(b, a),
    decreases a.len(),
{
    if a.len() != 0 && b.len() != 0 && a[0] as int == b[0] as int {
        lemma_lex_le_total(a.drop_first(), b.drop_first());
    }
}

/// Sequences below one another in both directions are equal.
pub proof fn lemma_lex_le_antisym(a: Seq<char>, b: Seq<char>)
    requires
        lex_le(a, b),
        lex_le(b, a),
    ensures
        a == b,
    decreases a.len(),
{
    if a.len() == 0 {
        assert(b.len() == 0);
        assert(a =~= b);
    } else {
        assert(b.len() != 0);
        assert(a[0] == b[0]);
        lemma_lex_le_antisym(a.drop_first(), b.drop_first());
        assert(a =~= seq![a[0]] + a.drop_first());
        assert(b =~= seq![b[0]] + b.drop_first());
    }
}

/// `lex_le` is transitive.
pub proof fn lemma_lex_le_trans(a: Seq<char>, b: Seq<char>, c: Seq<char>)
    requires
        lex_le(a, b),
        lex_le(b, c),
    ensures
        lex_le(a, c),
    decreases a.len(),
{
    if a.len() != 0 && b.len() != 0 && c.len() != 0 {
        if a[0] as int == b[0] as int && b[0] as int == c[0] as int {
            lemma_lex_le_trans(a.drop_first(), b.drop_first(), c.drop_first());
        }
    }
}

/// Steps `lex_le` across one equal leading character of both sequences.
proof fn lemma_lex_le_skip(a: Seq<char>, b: Seq<char>, i: int)
    requires
        0 <= i < a.len(),
        0 <= i < b.len(),
        a[i] == b[i],
    ensures
        lex_le(a.skip(i), b.skip(i)) == lex_le(a.skip(i + 1), b.skip(i + 1)),
{
    assert(a.skip(i).len() != 0);
    assert(b.skip(i).len() != 0);
    assert(a.skip(i)[0] == a[i]);
    assert(b.skip(i)[0] == b[i]);
    assert(a.skip(i).drop_first() =~= a.skip(i + 1));
    assert(b.skip(i).drop_first() =~= b.skip(i + 1));
}

/// Decides `lex_le` on two string slices.
pub fn str_lex_le(a: &str, b: &str) -> (r: bool)
    ensures
        r == lex_le(a@, b@),
{
    let a_len: usize = a.unicode_len();
    let b_len: usize = b.unicode_len();
    let mut i: usize = 0;
    proof {
        assert(a@.skip(0) =~= a@);
        assert(b@.skip(0) =~= b@);
    }
    loop
        invariant
            0 <= i <= a_len,
            0 <= i <= b_len,
            a_len == a@.len(),
            b_len == b@.len(),
            lex_le(a@, b@) == lex_le(a@.skip(i as int), b@.skip(i as int)),
        decreases a_len - i,
    {
        if i >= a_len {
            proof {
                assert(a@.skip(i as int).len() == 0);
            }
            return true;
        }
        if i >= b_len {
            proof {
                assert(b@.skip(i as int).len() == 0);
                assert(a@.skip(i as int).len() != 0);
            }
            return false;
        }
        let ca = a.get_char(i);
        let cb = b.get_char(i);
        if ca as u32 != cb as u32 {
            proof {
                assert(a@.skip(i as int)[0] == a@[i as int]);
                assert(b@.skip(i as int)[0] == b@[i as int]);
            }
            return (ca as u32) < (cb as u32);
        }
        proof {
            lemma_lex_le_skip(a@, b@, i as int);
        }
        i = i + 1;
    }
}

/// Decides view equality of two string slices.
pub fn str_eq(a: &str, b: &str) -> (r: bool)
    ensures
        r == (a@ == b@),
{
    let a_len: usize = a.unicode_len();
    let b_len: usize = b.unicode_len();
    if a_len != b_len {
        return false;
    }
    let mut i: usize = 0;
    while i < a_len
        invariant
            0 <= i <= a_len,
            a_len == a@.len(),
            a_len == b@.len(),
            forall|j: int| 0 <= j < i ==> a@[j] == b@[j],
        decreases a_len - i,
    {
        let ca = a.get_char(i);
        let cb = b.get_char(i);
        if ca as u32 != cb as u32 {
            proof {
                assert(a@[i as int] != b@[i as int]);
            }
            return false;
        }
        i = i + 1;
    }
    proof {
        assert(a@ =~= b@);
    }
    true
}

/// Whether `p` is the first part of `s`.
pub open spec fn is_prefix(p: Seq<char>, s: Seq<char>) -> bool {
    p.len() <= s.len() && p =~= s.subrange(0, p.len() as int)
}

/// Whether `p` is the last part of `s`.
pub open spec fn is_suffix(p: Seq<char>, s: Seq<char>) -> bool {
    p.len() <= s.len() && p =~= s.subrange(s.len() - p.len(), s.len() as int)
}

/// Whether `needle` occurs inside `hay` at position `k`.
pub open spec fn occurs_at(needle: Seq<char>, hay: Seq<char>, k: int) -> bool {
    0 <= k && k + needle.len() <= hay.len() && needle =~= hay.subrange(
        k,
        k + needle.len(),
    )
}

/// Whether `needle` occurs anywhere inside `hay`.
pub open spec fn seq_contains(needle: Seq<char>, hay: Seq<char>) -> bool {
    exists|k: int| occurs_at(needle, hay, k)
}

/// Whether `needle` occurs in `hay` starting at position `k`.
pub(crate) fn matches_at(needle: &str, hay: &str, k: usize) -> (r: bool)
    requires
        k + needle@.len() <= hay@.len(),
    ensures
        r == occurs_at(needle@, hay@, k as int),
{
    let n_len: usize = needle.unicode_len();
    let h_len: usize = hay.unicode_len();
    let mut i: usize = 0;
    while i < n_len
        invariant
            0 <= i <= n_len,
            n_len == needle@.len(),
            h_len == hay@.len(),
            k + n_len <= hay@.len(),
            forall|j: int| 0 <= j < i ==> needle@[j] == hay@[k + j],
        decreases n_len - i,
    {
        let cn = needle.get_char(i);
        let ch = hay.get_char(k + i);
        if cn as u32 != ch as u32 {
            proof {
                assert(needle@[i as int] != hay@[k + i]);
                assert(!occurs_at(needle@, hay@, k as int)) by {
                    if occurs_at(needle@, hay@, k as int) {
                        assert(needle@[i as int] == hay@.subrange(
                            k as int,
                            k + needle@.len(),
                        )[i as int]);
                    }
                }
            }
            return false;
        }
        i = i + 1;
    }
    proof {
        assert(needle@ =~= hay@.subrange(k as int, k + needle@.len()));
    }
    true
}

/// Decides whether `needle` occurs inside `hay`.
pub fn str_contains(hay: &str, needle: &str) -> (r: bool)
    ensures
        r == seq_contains(needle@, hay@),
{
    let n_len: usize = needle.unicode_len();
    let h_len: usize = hay.unicode_len();
    if n_len > h_len {
        proof {
            assert(forall|k: int| !occurs_at(needle@, hay@, k));
        }
        return false;
    }
    let mut k: usize = 0;
    while k <= h_len - n_len
        invariant
            0 <= k <= h_len - n_len + 1,
            n_len == needle@.len(),
            h_len == hay@.len(),
            n_len <= h_len,
            forall|j: int| 0 <= j < k ==> !occurs_at(needle@, hay@, j),
        decreases h_len - n_len - k + 1,
    {
        if matches_at(needle, hay, k) {
            return true;
        }
        k = k + 1;
    }
    proof {
        assert(forall|j: int| occurs_at(needle@, hay@, j) ==> 0 <= j <= h_len - n_len);
    }
    false
}

/// Decides whether `hay` starts with `needle`.
pub fn str_starts_with(hay: &str, needle: &str) -> (r: bool)
    ensures
        r == is_prefix(needle@, hay@),
{
    let n_len: usize = needle.unicode_len();
    let h_len: usize = hay.unicode_len();
    if n_len > h_len {
        return false;
    }
    matches_at(needle, hay, 0)
}

/// Decides whether `hay` ends with `needle`.
pub fn str_ends_with(hay: &str, needle: &str) -> (r: bool)
    ensures
        r == is_suffix(needle@, hay@),
{
    let n_len: usize = needle.unicode_len();
    let h_len: usize = hay.unicode_len();
    if n_len > h_len {
        return false;
    }
    let r = matches_at(needle, hay, h_len - n_len);
    proof {
        assert(occurs_at(needle@, hay@, h_len - n_len) == is_suffix(needle@, hay@));
    }
    r
}

/// Appends `piece` to `out`.
pub fn push_str(out: &mut String, piece: &str)
    ensures
        final(out)@ == old(out)@ + piece@,
{
    out.append(piece);
}

/// Appends characters `from..to` of `src` to `out`.
pub fn push_sub(out: &mut String, src: &str, from: usize, to: usize)
    requires
        from <= to <= src@.len(),
    ensures
        final(out)@ == old(out)@ + src@.subrange(from as int, to as int),
{
    let piece = src.substring_char(from, to);
    out.append(piece);
}

/// One character of a task title: separators become spaces.
pub open spec fn title_char(c: char) -> char {
    if c == '-' || c == '_' {
        ' '
    } else {
        c
    }
}

/// A task identifier with `-` and `_` separators replaced by spaces.
pub open spec fn title_text(s: Seq<char>) -> Seq<char> {
    s.map_values(|c: char| title_char(c))
}

/// One character of a dependency reference: `-` and spaces become `_`.
pub open spec fn slug_char(c: char) -> char {
    if c == '-' || c == ' ' {
        '_'
    } else {
        c
    }
}

/// A dependency identifier with `-` and spaces replaced by underscores.
pub open spec fn slug_text(s: Seq<char>) -> Seq<char> {
    s.map_values(|c: char| slug_char(c))
}

/// Appends `src` to `out` with `-` and `_` replaced by spaces.
pub fn push_title(out: &mut String, src: &str)
    ensures
        final(out)@ == old(out)@ + title_text(src@),
{
    proof {
        reveal_strlit(" ");
    }
    let len: usize = src.unicode_len();
    let mut i: usize = 0;
    while i < len
        invariant
            0 <= i <= len,
            len == src@.len(),
            out@ == old(out)@ + title_text(src@.take(i as int)),
        decreases len - i,
    {
        let ghost pre = out@;
        let c = src.get_char(i);
        if c == '-' || c == '_' {
            out.append(" ");
            proof {
                reveal_strlit(" ");
                assert(out@ =~= pre + seq![title_char(src@[i as int])]);
            }
        } else {
            let piece = src.substring_char(i, i + 1);
            out.append(piece);
            proof {
                assert(piece@ =~= seq![src@[i as int]]);
                assert(out@ =~= pre + seq![title_char(src@[i as int])]);
            }
        }
        proof {
            assert(title_text(src@.take(i + 1)) =~= title_text(src@.take(i as int)).push(
                title_char(src@[i as int]),
            ));
            assert(out@ =~= old(out)@ + title_text(src@.take(i + 1)));
        }
        i = i + 1;
    }
    proof {
        assert(src@.take(len as int) =~= src@);
    }
}

/// Appends `src` to `out` with `-` and spaces replaced by underscores.
pub fn push_slug(out: &mut String, src: &str)
    ensures
        final(out)@ == old(out)@ + slug_text(src@),
{
    proof {
        reveal_strlit("_");
    }
    let len: usize = src.unicode_len();
    let mut i: usize = 0;
    while i < len
        invariant
            0 <= i <= len,
            len == src@.len(),
            out@ == old(out)@ + slug_text(src@.take(i as int)),
        decreases len - i,
    {
        let ghost pre = out@;
        let c = src.get_char(i);
        if c == '-' || c == ' ' {
            out.append("_");
            proof {
                reveal_strlit("_");
                assert(out@ =~= pre + seq![slug_char(src@[i as int])]);
            }
        } else {
            let piece = src.substring_char(i, i + 1);
            out.append(piece);
            proof {
                assert(piece@ =~= seq![src@[i as int]]);
                assert(out@ =~= pre + seq![slug_char(src@[i as int])]);
            }
        }
        proof {
            assert(slug_text(src@.take(i + 1)) =~= slug_text(src@.take(i as int)).push(
                slug_char(src@[i as int]),
            ));
            assert(out@ =~= old(out)@ + slug_text(src@.take(i + 1)));
        }
        i = i + 1;
    }
    proof {
        assert(src@.take(len as int) =~= src@);
    }
}

/// The character for one decimal digit value.
pub open spec fn dec_digit(d: int) -> char {
    if d == 0 {
        '0'
    } else if d == 1 {
        '1'
    } else if d == 2 {
        '2'
    } else if d == 3 {
        '3'
    } else if d == 4 {
        '4'
    } else if d == 5 {
        '5'
    } else if d == 6 {
        '6'
    } else if d == 7 {
        '7'
    } else if d == 8 {
        '8'
    } else {
        '9'
    }
}

/// The decimal digits of a nonnegative number, most significant first.
pub open spec fn dec_text(n: int) -> Seq<char>
    decreases n,
{
    if n < 10 {
        seq![dec_digit(n)]
    } else {
        dec_text(n / 10).push(dec_digit(n % 10))
    }
}

/// Appends the decimal digit character for `d` to `out`.
pub(crate) fn push_digit(out: &mut String, d: u128)
    requires
        d < 10,
    ensures
        final(out)@ == old(out)@ + seq![dec_digit(d as int)],
{
    proof {
        reveal_strlit("0");
        reveal_strlit("1");
        reveal_strlit("2");
        reveal_strlit("3");
        reveal_strlit("4");
        reveal_strlit("5");
        reveal_strlit("6");
        reveal_strlit("7");
        reveal_strlit("8");
        reveal_strlit("9");
    }
    if d == 0 {
        out.append("0");
    } else if d == 1 {
        out.append("1");
    } else if d == 2 {
        out.append("2");
    } else if d == 3 {
        out.append("3");
    } else if d == 4 {
        out.append("4");
    } else if d == 5 {
        out.append("5");
    } else if d == 6 {
        out.append("6");
    } else if d == 7 {
        out.append("7");
    } else if d == 8 {
        out.append("8");
    } else {
        out.append("9");
    }
    proof {
        assert(out@ =~= old(out)@ + seq![dec_digit(d as int)]);
    }
}

/// The digit characters of `digits` (least significant first), reversed.
pub open spec fn rev_digit_chars(digits: Seq<u8>) -> Seq<char> {
    Seq::new(digits.len(), |j: int| dec_digit(digits[digits.len() - 1 - j] as int))
}

/// The number whose low digits (least significant first) are `digits` below `cur`.
pub open spec fn rebuilt(cur: int, digits: Seq<u8>) -> int
    decreases digits.len(),
{
    if digits.len() == 0 {
        cur
    } else {
        rebuilt(cur * 10 + digits.last(), digits.drop_last())
    }
}

proof fn lemma_rebuilt_step(next: int, cur: int, digits: Seq<u8>)
    requires
        digits.len() > 0,
        digits.last() == cur % 10,
        next == cur / 10,
        cur >= 0,
    ensures
        rebuilt(next, digits) == rebuilt(cur, digits.drop_last()),
{
    assert(next * 10 + digits.last() == cur) by (nonlinear_arith)
        requires
            digits.last() == cur % 10,
            next == cur / 10,
            cur >= 0,
    ;
}

proof fn lemma_rebuilt_text(cur: int, digits: Seq<u8>)
    requires
        cur > 0,
        forall|j: int| 0 <= j < digits.len() ==> digits[j] < 10,
    ensures
        dec_text(rebuilt(cur, digits)) =~= dec_text(cur) + rev_digit_chars(digits),
    decreases digits.len(),
{
    if digits.len() == 0 {
        assert(dec_text(rebuilt(cur, digits)) =~= dec_text(cur) + rev_digit_chars(digits));
    } else {
        let d = digits.last() as int;
        let cur2 = cur * 10 + d;
        assert(cur2 >= 10) by (nonlinear_arith)
            requires
                cur > 0,
                d >= 0,
                cur2 == cur * 10 + d,
        ;
        assert(cur2 / 10 == cur && cur2 % 10 == d) by (nonlinear_arith)
            requires
                cur2 == cur * 10 + d,
                0 <= d < 10,
        ;
        assert(dec_text(cur2) == dec_text(cur).push(dec_digit(d)));
        lemma_rebuilt_text(cur2, digits.drop_last());
        assert(rev_digit_chars(digits) =~= seq![dec_digit(d)] + rev_digit_chars(
            digits.drop_last(),
        ));
        assert(dec_text(rebuilt(cur, digits)) =~= dec_text(cur) + rev_digit_chars(digits));
    }
}

proof fn lemma_digits_text(n: int, digits: Seq<u8>)
    requires
        n >= 0,
        digits.len() > 0,
        forall|j: int| 0 <= j < digits.len() ==> digits[j] < 10,
        digits.len() > 1 ==> digits.last() > 0,
        rebuilt(0, digits) == n,
    ensures
        dec_text(n) =~= rev_digit_chars(digits),
{
    let d = digits.last() as int;
    assert(rebuilt(0, digits) == rebuilt(d, digits.drop_last()));
    if digits.len() == 1 {
        assert(n == d);
        assert(rev_digit_chars(digits) =~= seq![dec_digit(d)]);
    } else {
        lemma_rebuilt_text(d, digits.drop_last());
        assert(dec_text(d) =~= seq![dec_digit(d)]);
        assert(rev_digit_chars(digits) =~= seq![dec_digit(d)] + rev_digit_chars(
            digits.drop_last(),
        ));
    }
}

/// Appends the decimal form of `n` to `out`.
pub fn push_number(out: &mut String, n: u128)
    ensures
        final(out)@ == old(out)@ + dec_text(n as int),
{
    let mut digits: Vec<u8> = Vec::new();
    let mut cur: u128 = n;
    loop
        invariant_except_break
            digits@.len() > 0 ==> cur > 0,
        invariant
            digits@.len() > 0 ==> rebuilt(cur as int, digits@) == n as int,
            digits@.len() == 0 ==> cur == n,
            digits@.len() > 1 ==> digits@.last() > 0 || cur > 0,
            forall|j: int| 0 <= j < digits@.len() ==> digits@[j] < 10,
        ensures
            digits@.len() > 0,
            rebuilt(0, digits@) == n as int,
            digits@.len() > 1 ==> digits@.last() > 0,
            forall|j: int| 0 <= j < digits@.len() ==> digits@[j] < 10,
        decreases cur,
    {
        let ghost prev = cur;
        let ghost pre_digits = digits@;
        let d: u8 = (cur % 10) as u8;
        let next: u128 = cur / 10;
        digits.push(d);
        proof {
            assert(digits@.drop_last() =~= pre_digits);
            lemma_rebuilt_step(next as int, cur as int, digits@);
            if digits@.len() == 1 {
                assert(rebuilt(next as int, digits@) == rebuilt(cur as int, digits@.drop_last()));
                assert(rebuilt(cur as int, digits@.drop_last()) == cur as int);
            }
            if next == 0 && digits@.len() > 1 {
                assert(prev > 0);
                assert(d as int == prev as int % 10);
                assert(prev < 10) by (nonlinear_arith)
                    requires
                        next == 0,
                        next == prev / 10,
                        prev >= 0,
                ;
                assert(d > 0);
            }
        }
        cur = next;
        if cur == 0 {
            break;
        }
    }
    proof {
        lemma_digits_text(n as int, digits@);
    }
    let mut i: usize = digits.len();
    proof {
        assert(rev_digit_chars(digits@).take(0) =~= Seq::<char>::empty());
        assert(out@ =~= out@ + rev_digit_chars(digits@).take(0));
    }
    let ghost entry = out@;
    let len: usize = digits.len();
    while i > 0
        invariant
            0 <= i <= len,
            len == digits@.len(),
            forall|j: int| 0 <= j < digits@.len() ==> digits@[j] < 10,
            out@ == entry + rev_digit_chars(digits@).take(len - i),
        decreases i,
    {
        i = i - 1;
        push_digit(out, digits[i] as u128);
        proof {
            assert(rev_digit_chars(digits@).take(len - i) =~= rev_digit_chars(digits@).take(
                len - i - 1,
            ).push(dec_digit(digits@[i as int] as int)));
            assert(out@ =~= entry + rev_digit_chars(digits@).take(len - i));
        }
    }
    proof {
        assert(rev_digit_chars(digits@).take(len as int) =~= rev_digit_chars(digits@));
        assert(out@ =~= entry + dec_text(n as int));
    }
}

/// The decimal form of an integer, with a leading minus sign when negative.
pub open spec fn int_text(m: int) -> Seq<char> {
    if m < 0 {
        seq!['-'] + dec_text(-m)
    } else {
        dec_text(m)
    }
}

/// Appends the decimal form of the signed number `m` to `out`.
pub fn push_int(out: &mut String, m: i128)
    ensures
        final(out)@ == old(out)@ + int_text(m as int),
{
    if m < 0 {
        proof {
            reveal_strlit("-");
        }
        out.append("-");
        let mag: u128 = ((-(m + 1)) as u128) + 1;
        push_number(out, mag);
        proof {
            assert(out@ =~= old(out)@ + int_text(m as int));
        }
    } else {
        push_number(out, m as u128);
    }
}

/// The six digit characters of a fraction of a unit, most significant first.
pub open spec fn frac_digits6(f: int) -> Seq<char> {
    seq![
        dec_digit(f / 100_000 % 10),
        dec_digit(f / 10_000 % 10),
        dec_digit(f / 1_000 % 10),
        dec_digit(f / 100 % 10),
        dec_digit(f / 10 % 10),
        dec_digit(f % 10),
    ]
}

/// `s` with every trailing `0` character removed.
pub open spec fn trim_zeros(s: Seq<char>) -> Seq<char>
    decreases s.len(),
{
    if s.len() > 0 && s.last() == '0' {
        trim_zeros(s.drop_last())
    } else {
        s
    }
}

proof fn lemma_trim_zeros_take(s: Seq<char>, k: int)
    requires
        0 <= k < s.len(),
        s[k] != '0',
        forall|j: int| k < j < s.len() ==> s[j] == '0',
    ensures
        trim_zeros(s) == s.take(k + 1),
    decreases s.len(),
{
    if k == s.len() - 1 {
        assert(s.take(k + 1) =~= s);
    } else {
        assert(s.last() == '0');
        assert(s.drop_last() =~= s.take(s.len() - 1));
        lemma_trim_zeros_take(s.drop_last(), k);
        assert(s.drop_last().take(k + 1) =~= s.take(k + 1));
    }
}

/// The canonical text of a decimal number held as `m` micro-units: the whole
/// part, then a point and the fraction digits with trailing zeros removed,
/// the point and fraction omitted for whole values.
pub open spec fn decimal_text(m: int) -> Seq<char>
    decreases (if m < 0 { 1int } else { 0int }),
{
    if m < 0 {
        seq!['-'] + decimal_text(-m)
    } else if m % 1_000_000 == 0 {
        dec_text(m / 1_000_000)
    } else {
        dec_text(m / 1_000_000) + seq!['.'] + trim_zeros(frac_digits6(m % 1_000_000))
    }
}

/// Appends the six fraction digits of `frac` to `out`, trailing zeros removed.
fn push_frac(out: &mut String, frac: u64)
    requires
        0 < frac < 1_000_000,
    ensures
        final(out)@ == old(out)@ + trim_zeros(frac_digits6(frac as int)),
{
    let d0: u64 = frac / 100_000 % 10;
    let d1: u64 = frac / 10_000 % 10;
    let d2: u64 = frac / 1_000 % 10;
    let d3: u64 = frac / 100 % 10;
    let d4: u64 = frac / 10 % 10;
    let d5: u64 = frac % 10;
    let last: usize = if d5 != 0 {
        5
    } else if d4 != 0 {
        4
    } else if d3 != 0 {
        3
    } else if d2 != 0 {
        2
    } else if d1 != 0 {
        1
    } else {
        0
    };
    proof {
        let ghost f = frac as int;
        lemma_div_denominator(f, 10, 10);
        lemma_div_denominator(f, 100, 10);
        lemma_div_denominator(f, 1_000, 10);
        lemma_div_denominator(f, 10_000, 10);
        assert(f / 10 / 10 == f / 100);
        assert(f / 100 / 10 == f / 1_000);
        assert(f / 1_000 / 10 == f / 10_000);
        assert(f / 10_000 / 10 == f / 100_000);
        if d0 == 0 && d1 == 0 && d2 == 0 && d3 == 0 && d4 == 0 && d5 == 0 {
            assert(f / 100_000 < 10) by (nonlinear_arith)
                requires
                    0 <= f < 1_000_000,
            ;
            assert(f / 100_000 % 10 == f / 100_000);
            lemma_fundamental_div_mod(f / 10_000, 10);
            lemma_fundamental_div_mod(f / 1_000, 10);
            lemma_fundamental_div_mod(f / 100, 10);
            lemma_fundamental_div_mod(f / 10, 10);
            lemma_fundamental_div_mod(f, 10);
            assert(f == 0);
        }
        assert(frac_digits6(f)[last as int] != '0');
        assert(forall|j: int| last < j < 6 ==> frac_digits6(f)[j] == '0');
        lemma_trim_zeros_take(frac_digits6(f), last as int);
    }
    let digits: [u64; 6] = [d0, d1, d2, d3, d4, d5];
    let mut i: usize = 0;
    while i <= last
        invariant
            0 <= i <= last + 1,
            last < 6,
            digits@ =~= seq![d0, d1, d2, d3, d4, d5],
            forall|j: int| 0 <= j < 6 ==> digits@[j] < 10,
            frac_digits6(frac as int) =~= Seq::new(6, |j: int| dec_digit(digits@[j] as int)),
            out@ == old(out)@ + frac_digits6(frac as int).take(i as int),
        decreases last + 1 - i,
    {
        push_digit(out, digits[i] as u128);
        proof {
            assert(frac_digits6(frac as int).take(i + 1) =~= frac_digits6(frac as int).take(
                i as int,
            ).push(dec_digit(digits@[i as int] as int)));
            assert(out@ =~= old(out)@ + frac_digits6(frac as int).take(i + 1));
        }
        i = i + 1;
    }
}

/// Appends the canonical text of `d` to `out`.
pub fn push_decimal(out: &mut String, d: Decimal)
    ensures
        final(out)@ == old(out)@ + decimal_text(d.micros as int),
{
    let m = d.micros;
    let mag: u64 = if m >= 0 {
        m as u64
    } else {
        ((-(m + 1)) as u64) + 1
    };
    if m < 0 {
        proof {
            reveal_strlit("-");
        }
        out.append("-");
    }
    let units: u64 = mag / 1_000_000;
    let frac: u64 = mag % 1_000_000;
    push_number(out, units as u128);
    if frac > 0 {
        proof {
            reveal_strlit(".");
        }
        out.append(".");
        push_frac(out, frac);
    }
    proof {
        reveal_strlit("-");
        reveal_strlit(".");
        let ghost mi = d.micros as int;
        let ghost mg = mag as int;
        assert("-"@ =~= seq!['-']);
        assert("."@ =~= seq!['.']);
        if m >= 0 {
            assert(mg == mi);
            if frac == 0 {
                assert(decimal_text(mi) == dec_text(mi / 1_000_000));
                assert(out@ =~= old(out)@ + decimal_text(mi));
            } else {
                assert(decimal_text(mi) == dec_text(mi / 1_000_000) + seq!['.'] + trim_zeros(
                    frac_digits6(mi % 1_000_000),
                ));
                assert(out@ =~= old(out)@ + decimal_text(mi));
            }
        } else {
            assert(mg == -mi);
            assert(decimal_text(mi) == seq!['-'] + decimal_text(-mi));
            if frac == 0 {
                assert(decimal_text(-mi) == dec_text(mg / 1_000_000));
                assert(out@ =~= old(out)@ + decimal_text(mi));
            } else {
                assert(decimal_text(-mi) == dec_text(mg / 1_000_000) + seq!['.'] + trim_zeros(
                    frac_digits6(mg % 1_000_000),
                ));
                assert(out@ =~= old(out)@ + decimal_text(mi));
            }
        }
    }
}

/// Inserting an element anywhere adds exactly it to the element multiset.
pub proof fn lemma_seq_insert_multiset<A>(s: Seq<A>, q: int, v: A)
    requires
        0 <= q <= s.len(),
    ensures
        s.insert(q, v).to_multiset() =~= s.to_multiset().insert(v),
{
    broadcast use vstd::seq_lib::group_to_multiset_ensures;

    assert(s.insert(q, v) =~= s.take(q).push(v) + s.skip(q));
    assert(s =~= s.take(q) + s.skip(q));
    vstd::seq_lib::lemma_multiset_commutative(s.take(q).push(v), s.skip(q));
    vstd::seq_lib::lemma_multiset_commutative(s.take(q), s.skip(q));
    assert(s.take(q).push(v).to_multiset() =~= s.take(q).to_multiset().insert(v));
    assert(s.insert(q, v).to_multiset() =~= s.to_multiset().insert(v));
}

/// Pairwise-distinct elements carry over to any rearrangement.
pub proof fn lemma_distinct_seq_transfer<A>(x: Seq<A>, y: Seq<A>)
    requires
        forall|i: int, j: int| 0 <= i < j < x.len() ==> (#[trigger] x[i]) != (#[trigger] x[j]),
        y.to_multiset() == x.to_multiset(),
    ensures
        forall|i: int, j: int| 0 <= i < j < y.len() ==> (#[trigger] y[i]) != (#[trigger] y[j]),
{
    broadcast use vstd::seq_lib::group_to_multiset_ensures;

    assert forall|i: int, j: int| 0 <= i < j < y.len() implies (#[trigger] y[i]) != (
    #[trigger] y[j]) by {
        if y[i] == y[j] {
            let v = y[i];
            assert(y.remove(i).to_multiset() =~= y.to_multiset().remove(v));
            assert(y.remove(i)[j - 1] == v);
            assert(y.remove(i).contains(v));
            assert(y.remove(i).to_multiset().contains(v));
            assert(x.to_multiset().count(v) >= 2);
            assert(x.to_multiset().contains(v));
            assert(x.contains(v));
            let a = choose|a: int| 0 <= a < x.len() && x[a] == v;
            assert(x.remove(a).to_multiset() =~= x.to_multiset().remove(v));
            assert(x.remove(a).to_multiset().contains(v));
            assert(x.remove(a).contains(v));
            let b = choose|b: int| 0 <= b < x.remove(a).len() && x.remove(a)[b] == v;
            if b < a {
                assert(x[b] == v);
            } else {
                assert(x[b + 1] == v);
            }
        }
    }
}

/// Whether `c` is a decimal digit character.
pub open spec fn is_digit_char(c: char) -> bool {
    '0' <= c <= '9'
}

/// The value of a decimal digit character.
pub open spec fn digit_val(c: char) -> int {
    c as int - '0' as int
}

/// The value of a digit sequence, most significant first.
pub open spec fn digits_value(ds: Seq<char>) -> int
    decreases ds.len(),
{
    if ds.len() == 0 {
        0
    } else {
        digits_value(ds.drop_last()) * 10 + digit_val(ds.last())
    }
}

/// A digit sequence's value is never negative.
pub proof fn lemma_digits_value_nonneg(ds: Seq<char>)
    requires
        forall|i: int| 0 <= i < ds.len() ==> is_digit_char(#[trigger] ds[i]),
    ensures
        digits_value(ds) >= 0,
    decreases ds.len(),
{
    if ds.len() > 0 {
        assert(forall|i: int|
            0 <= i < ds.drop_last().len() ==> is_digit_char(#[trigger] ds.drop_last()[i]));
        lemma_digits_value_nonneg(ds.drop_last());
        assert(digits_value(ds.drop_last()) * 10 >= 0) by (nonlinear_arith)
            requires
                digits_value(ds.drop_last()) >= 0,
        ;
    }
}

/// Equal texts with one shared prefix have equal remainders.
pub proof fn lemma_concat_cancel(a: Seq<char>, x: Seq<char>, y: Seq<char>)
    requires
        a + x == a + y,
    ensures
        x == y,
{
    broadcast use vstd::seq::group_seq_axioms;

    vstd::seq::axiom_seq_add_len(a, x);
    vstd::seq::axiom_seq_add_len(a, y);
    assert((a + x).len() == (a + y).len());
    assert(x.len() == y.len());
    assert forall|i: int| 0 <= i < x.len() implies x[i] == y[i] by {
        assert((a + x)[a.len() + i] == x[i]);
        assert((a + y)[a.len() + i] == y[i]);
    }
    assert(x =~= y);
}

/// A text splits in only one way into a part free of `c` and a part that
/// begins with `c`.
pub proof fn lemma_first_char_split(
    a1: Seq<char>,
    b1: Seq<char>,
    a2: Seq<char>,
    b2: Seq<char>,
    c: char,
)
    requires
        a1 + b1 == a2 + b2,
        forall|i: int| 0 <= i < a1.len() ==> a1[i] != c,
        forall|i: int| 0 <= i < a2.len() ==> a2[i] != c,
        b1.len() > 0 && b1[0] == c,
        b2.len() > 0 && b2[0] == c,
    ensures
        a1 == a2,
        b1 == b2,
{
    broadcast use vstd::seq::group_seq_axioms;

    let t = a1 + b1;
    assert(t[a1.len() as int] == c);
    assert(t[a2.len() as int] == c);
    assert(a1.len() == a2.len()) by {
        if a1.len() < a2.len() {
            assert(t[a1.len() as int] == a2[a1.len() as int]);
        } else if a2.len() < a1.len() {
            assert(t[a2.len() as int] == a1[a2.len() as int]);
        }
    }
    assert(a1 =~= a2) by {
        assert(forall|i: int| 0 <= i < a1.len() ==> a1[i] == t[i] && a2[i] == (a2 + b2)[i]);
    }
    lemma_concat_cancel(a1, b1, b2);
}

/// A text splits in only one way into a part and a tail that begins with
/// `c` and holds no later `c`.
pub proof fn lemma_last_char_split(
    a1: Seq<char>,
    b1: Seq<char>,
    a2: Seq<char>,
    b2: Seq<char>,
    c: char,
)
    requires
        a1 + b1 == a2 + b2,
        b1.len() > 0 && b1[0] == c,
        b2.len() > 0 && b2[0] == c,
        forall|i: int| 1 <= i < b1.len() ==> b1[i] != c,
        forall|i: int| 1 <= i < b2.len() ==> b2[i] != c,
    ensures
        a1 == a2,
        b1 == b2,
{
    broadcast use vstd::seq::group_seq_axioms;

    vstd::seq::axiom_seq_add_len(a1, b1);
    vstd::seq::axiom_seq_add_len(a2, b2);
    let t = a1 + b1;
    assert(t.len() == a1.len() + b1.len());
    assert(t.len() == a2.len() + b2.len());
    assert(a1.len() == a2.len()) by {
        if a1.len() < a2.len() {
            let off = a2.len() - a1.len();
            vstd::seq::axiom_seq_add_index2(a1, b1, a2.len() as int);
            vstd::seq::axiom_seq_add_index2(a2, b2, a2.len() as int);
            assert(t[a2.len() as int] == b1[off as int]);
            assert((a2 + b2)[a2.len() as int] == b2[0]);
            assert(1 <= off < b1.len());
            assert(b1[off as int] != c);
        } else if a2.len() < a1.len() {
            let off = a1.len() - a2.len();
            vstd::seq::axiom_seq_add_index2(a1, b1, a1.len() as int);
            vstd::seq::axiom_seq_add_index2(a2, b2, a1.len() as int);
            assert(t[a1.len() as int] == b1[0]);
            assert((a2 + b2)[a1.len() as int] == b2[off as int]);
            assert(1 <= off < b2.len());
            assert(b2[off as int] != c);
        }
    }
    assert(a1 =~= a2) by {
        assert forall|i: int| 0 <= i < a1.len() implies a1[i] == a2[i] by {
            vstd::seq::axiom_seq_add_index1(a1, b1, i);
            vstd::seq::axiom_seq_add_index1(a2, b2, i);
        }
    }
    lemma_concat_cancel(a1, b1, b2);
}

/// Every character of a decimal text is a digit.
pub proof fn lemma_dec_text_digits(n: int)
    requires
        n >= 0,
    ensures
        forall|i: int| 0 <= i < dec_text(n).len() ==> is_digit_char(#[trigger] dec_text(n)[i]),
        dec_text(n).len() >= 1,
    decreases n,
{
    if n < 10 {
        assert(is_digit_char(dec_digit(n)));
    } else {
        lemma_dec_text_digits(n / 10);
        assert(is_digit_char(dec_digit(n % 10)));
        assert(forall|i: int|
            0 <= i < dec_text(n / 10).len() ==> dec_text(n)[i] == dec_text(n / 10)[i]);
        assert(dec_text(n).last() == dec_digit(n % 10));
    }
}

/// Distinct digit values have distinct digit characters.
proof fn lemma_dec_digit_injective(x: int, y: int)
    requires
        0 <= x < 10,
        0 <= y < 10,
        dec_digit(x) == dec_digit(y),
    ensures
        x == y,
{
}

/// Equal decimal texts come from equal numbers.
pub proof fn lemma_dec_text_injective(a: int, b: int)
    requires
        a >= 0,
        b >= 0,
        dec_text(a) == dec_text(b),
    ensures
        a == b,
    decreases a,
{
    lemma_dec_text_digits(a);
    lemma_dec_text_digits(b);
    if a < 10 && b < 10 {
        assert(dec_text(a)[0] == dec_digit(a));
        assert(dec_text(b)[0] == dec_digit(b));
        lemma_dec_digit_injective(a, b);
    } else if a < 10 {
        assert(dec_text(b).len() >= 2) by {
            lemma_dec_text_digits(b / 10);
        }
    } else if b < 10 {
        assert(dec_text(a).len() >= 2) by {
            lemma_dec_text_digits(a / 10);
        }
    } else {
        assert(dec_text(a).last() == dec_digit(a % 10));
        assert(dec_text(b).last() == dec_digit(b % 10));
        lemma_dec_digit_injective(a % 10, b % 10);
        assert(dec_text(a).drop_last() =~= dec_text(a / 10));
        assert(dec_text(b).drop_last() =~= dec_text(b / 10));
        lemma_dec_text_injective(a / 10, b / 10);
        assert(a == (a / 10) * 10 + a % 10) by (nonlinear_arith);
        assert(b == (b / 10) * 10 + b % 10) by (nonlinear_arith);
    }
}

/// The first position at or after `i` that is not a digit.
pub open spec fn digits_end(s: Seq<char>, i: int) -> int
    decreases s.len() - i,
{
    if 0 <= i < s.len() && is_digit_char(s[i]) {
        digits_end(s, i + 1)
    } else {
        i
    }
}

/// Skips digits from position `i`.
pub(crate) fn digits_end_from(s: &str, i: usize) -> (r: usize)
    requires
        i <= s@.len(),
    ensures
        r == digits_end(s@, i as int),
        i <= r <= s@.len(),
        forall|j: int| i <= j < r ==> is_digit_char(#[trigger] s@[j]),
    decreases s@.len() - i,
{
    let len: usize = s.unicode_len();
    let mut j: usize = i;
    while j < len
        invariant
            i <= j <= len,
            len == s@.len(),
            digits_end(s@, i as int) == digits_end(s@, j as int),
            forall|k: int| i <= k < j ==> is_digit_char(#[trigger] s@[k]),
        decreases len - j,
    {
        let c = s.get_char(j);
        if c < '0' || c > '9' {
            proof {
                assert(!is_digit_char(s@[j as int]));
            }
            return j;
        }
        j = j + 1;
    }
    j
}

} // verus!
