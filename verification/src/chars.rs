//! Character classification and digit-string arithmetic: the groundwork the
//! matchers build their contracts on.

use vstd::prelude::*;
use vstd::string::StrSliceExecFns;

verus! {

/// Whitespace as the scanner understands it: space, tab, newline and
/// carriage return.
pub open spec fn is_space(c: char) -> bool {
    c == ' ' || c == '\t' || c == '\n' || c == '\r'
}

pub fn space(c: char) -> (r: bool)
    ensures
        r == is_space(c),
{
    c == ' ' || c == '\t' || c == '\n' || c == '\r'
}

/// The numeric value of `c` as a digit in any base the scanner knows (at
/// most 16), or 99 where `c` is a digit in none of them.
pub open spec fn digit_val(c: char) -> int {
    if '0' as int <= c as int && c as int <= '9' as int {
        c as int - '0' as int
    } else if 'a' as int <= c as int && c as int <= 'f' as int {
        10 + c as int - 'a' as int
    } else if 'A' as int <= c as int && c as int <= 'F' as int {
        10 + c as int - 'A' as int
    } else {
        99
    }
}

/// Whether `c` is a valid digit in `base`.
pub open spec fn is_digit_in(c: char, base: int) -> bool {
    digit_val(c) < base
}

pub fn digit_value(c: char) -> (r: u32)
    ensures
        r == digit_val(c),
{
    let u = c as u32;
    if 48 <= u && u <= 57 {
        u - 48
    } else if 97 <= u && u <= 102 {
        u - 97 + 10
    } else if 65 <= u && u <= 70 {
        u - 65 + 10
    } else {
        99
    }
}

pub fn is_digit(c: char, base: u32) -> (r: bool)
    ensures
        r == is_digit_in(c, base as int),
{
    digit_value(c) < base
}

/// Whether `c` is alphabetic. The ASCII range is pinned down exactly; beyond
/// ASCII the class is Unicode's Alphabetic property, left uninterpreted.
pub open spec fn alphabetic(c: char) -> bool {
    if c as int <= 127 {
        ('a' as int <= c as int && c as int <= 'z' as int) || ('A' as int <= c as int && c as int
            <= 'Z' as int)
    } else {
        alphabetic_beyond_ascii(c)
    }
}

pub uninterp spec fn alphabetic_beyond_ascii(c: char) -> bool;

/// Whether `c` is alphanumeric, in the same style as [`alphabetic`].
pub open spec fn alphanumeric(c: char) -> bool {
    if c as int <= 127 {
        alphabetic(c) || ('0' as int <= c as int && c as int <= '9' as int)
    } else {
        alphanumeric_beyond_ascii(c)
    }
}

pub uninterp spec fn alphanumeric_beyond_ascii(c: char) -> bool;

/// Relies on char::is_alphabetic: within ASCII exactly the letters are
/// alphabetic; beyond ASCII the result is Unicode's Alphabetic property,
/// a function of the character alone.
pub assume_specification[ char::is_alphabetic ](c: char) -> (r: bool)
    ensures
        c as int > 127 ==> r == alphabetic_beyond_ascii(c),
        c as int <= 127 ==> r == (('a' as int <= c as int && c as int <= 'z' as int) || (
        'A' as int <= c as int && c as int <= 'Z' as int)),
        r == alphabetic(c),
;

/// Relies on char::is_alphanumeric: within ASCII exactly the letters and
/// decimal digits are alphanumeric; beyond ASCII the result is a function of
/// the character alone.
pub assume_specification[ char::is_alphanumeric ](c: char) -> (r: bool)
    ensures
        c as int > 127 ==> r == alphanumeric_beyond_ascii(c),
        c as int <= 127 ==> r == (alphabetic(c) || ('0' as int <= c as int && c as int
            <= '9' as int)),
        r == alphanumeric(c),
;

/// Relies on String::push: appends the given character to the end of the
/// string.
pub assume_specification[ String::push ](s: &mut String, c: char)
    ensures
        final(s)@ == old(s)@.push(c),
;

/// Copies a string.
pub fn clone_string(w: &String) -> (r: String)
    ensures
        r@ == w@,
{
    w.clone()
}

/// Collects the characters of `s` into a vector.
pub fn chars_of(s: &str) -> (v: Vec<char>)
    ensures
        v@ == s@,
{
    let n = s.unicode_len();
    let mut v: Vec<char> = Vec::new();
    let mut i: usize = 0;
    proof {
        assert(v@ =~= s@.take(0));
    }
    while i < n
        invariant
            n == s@.len(),
            0 <= i <= n,
            v@ == s@.take(i as int),
        decreases n - i,
    {
        v.push(s.get_char(i));
        proof {
            assert(s@.take(i as int).push(s@[i as int]) =~= s@.take(i + 1));
        }
        i = i + 1;
    }
    proof {
        assert(s@.take(n as int) =~= s@);
    }
    v
}

/// The value of the digit string `s` read in `base`.
pub open spec fn digits_val(s: Seq<char>, base: int) -> int
    decreases s.len(),
{
    if s.len() == 0 {
        0
    } else {
        digits_val(s.drop_last(), base) * base + digit_val(s.last())
    }
}

pub proof fn lemma_digits_val_nonneg(s: Seq<char>, base: int)
    requires
        base >= 1,
    ensures
        digits_val(s, base) >= 0,
    decreases s.len(),
{
    if s.len() > 0 {
        lemma_digits_val_nonneg(s.drop_last(), base);
    }
}

/// Appending digits never shrinks the value: the value of a prefix bounds
/// the value of the whole run from below.
pub proof fn lemma_digits_val_prefix(s: Seq<char>, base: int, m: int)
    requires
        base >= 1,
        0 <= m <= s.len(),
    ensures
        digits_val(s.take(m), base) <= digits_val(s, base),
    decreases s.len() - m,
{
    if m < s.len() {
        assert(s.take(m + 1).drop_last() =~= s.take(m));
        assert(s.take(m + 1).last() == s[m]);
        lemma_digits_val_nonneg(s.take(m), base);
        assert(digits_val(s.take(m + 1), base) == digits_val(s.take(m), base) * base + digit_val(
            s[m],
        ));
        assert(digits_val(s.take(m), base) * base >= digits_val(s.take(m), base)) by (
        nonlinear_arith)
            requires
                base >= 1,
                digits_val(s.take(m), base) >= 0,
        ;
        lemma_digits_val_prefix(s, base, m + 1);
    } else {
        assert(s.take(m) =~= s);
    }
}

/// The decimal digit character for `d`.
pub open spec fn digit_char(d: int) -> char {
    if d == 0 {
        '0'
    } else if d == 1 {
        '1'
    } else if d == 2 {
        '2'
    } else if d == 3 {
        '3'
    } else if d == 4 {
        '4'
    } else if d == 5 {
        '5'
    } else if d == 6 {
        '6'
    } else if d == 7 {
        '7'
    } else if d == 8 {
        '8'
    } else {
        '9'
    }
}

/// The canonical decimal rendering of `n`: no sign and no extraneous leading
/// zeros.
pub open spec fn dec_digits(n: int) -> Seq<char>
    decreases n,
{
    if n <= 9 {
        seq![digit_char(n)]
    } else {
        dec_digits(n / 10).push(digit_char(n % 10))
    }
}

/// The canonical decimal rendering is made of decimal digits, has no
/// extraneous leading zero, and reading it back in base 10 yields the
/// rendered value: the emitted text of an integer literal parses back to
/// the identical numeric value.
pub proof fn lemma_dec_digits_parse_back(n: int)
    requires
        n >= 0,
    ensures
        digits_val(dec_digits(n), 10) == n,
        dec_digits(n).len() >= 1,
        forall|k: int| 0 <= k < dec_digits(n).len() ==> is_digit_in(#[trigger] dec_digits(n)[k], 10),
        n >= 1 ==> dec_digits(n)[0] != '0',
    decreases n,
{
    if n <= 9 {
        let s = dec_digits(n);
        assert(s =~= seq![digit_char(n)]);
        assert(s.drop_last() =~= Seq::<char>::empty());
        assert(digits_val(s.drop_last(), 10) == 0);
        assert(digits_val(s, 10) == 0 * 10 + digit_val(s.last()));
        assert(digit_val(digit_char(n)) == n);
    } else {
        lemma_dec_digits_parse_back(n / 10);
        let prefix = dec_digits(n / 10);
        assert(dec_digits(n) == prefix.push(digit_char(n % 10)));
        assert(prefix.push(digit_char(n % 10)).drop_last() =~= prefix);
        assert(digits_val(dec_digits(n), 10) == digits_val(prefix, 10) * 10 + digit_val(
            digit_char(n % 10),
        ));
        assert(digit_val(digit_char(n % 10)) == n % 10);
        assert((n / 10) * 10 + n % 10 == n) by (nonlinear_arith);
        assert(forall|k: int|
            0 <= k < dec_digits(n).len() ==> is_digit_in(#[trigger] dec_digits(n)[k], 10)) by {
            assert(forall|k: int|
                0 <= k < prefix.len() ==> dec_digits(n)[k] == #[trigger] prefix[k]);
        }
    }
}

/// A decimal digit string that does not start with `0` has a positive
/// value.
pub proof fn lemma_digit_string_positive(s: Seq<char>)
    requires
        s.len() > 0,
        forall|j: int| 0 <= j < s.len() ==> is_digit_in(#[trigger] s[j], 10),
        s[0] != '0',
    ensures
        digits_val(s, 10) >= 1,
    decreases s.len(),
{
    if s.len() == 1 {
        assert(s.drop_last() =~= Seq::<char>::empty());
        assert(digits_val(Seq::<char>::empty(), 10) == 0);
        assert(s.last() == s[0]);
        assert(digits_val(s, 10) == digit_val(s[0]));
    } else {
        let pre = s.drop_last();
        assert(forall|j: int| 0 <= j < pre.len() ==> is_digit_in(#[trigger] pre[j], 10));
        lemma_digit_string_positive(pre);
        assert(digits_val(pre, 10) * 10 + digit_val(s.last()) >= 1) by (nonlinear_arith)
            requires
                digits_val(pre, 10) >= 1,
                digit_val(s.last()) >= 0,
        ;
    }
}

/// Rendering the value of a decimal digit string without extraneous
/// leading zeros gives back the very string.
pub proof fn lemma_dec_digits_of_digit_string(s: Seq<char>)
    requires
        s.len() > 0,
        forall|j: int| 0 <= j < s.len() ==> is_digit_in(#[trigger] s[j], 10),
        s.len() > 1 ==> s[0] != '0',
    ensures
        digits_val(s, 10) >= 0,
        dec_digits(digits_val(s, 10)) == s,
    decreases s.len(),
{
    lemma_digits_val_nonneg(s, 10);
    if s.len() == 1 {
        assert(s.drop_last() =~= Seq::<char>::empty());
        assert(digits_val(Seq::<char>::empty(), 10) == 0);
        assert(s.last() == s[0]);
        assert(digits_val(s, 10) == digit_val(s[0]));
        assert(digit_char(digit_val(s[0])) == s[0]);
        assert(dec_digits(digits_val(s, 10)) =~= s);
    } else {
        let pre = s.drop_last();
        assert(forall|j: int| 0 <= j < pre.len() ==> is_digit_in(#[trigger] pre[j], 10));
        lemma_dec_digits_of_digit_string(pre);
        lemma_digit_string_positive(pre);
        let v = digits_val(s, 10);
        let p = digits_val(pre, 10);
        let d = digit_val(s.last());
        assert(v == p * 10 + d);
        assert(v >= 10 && v / 10 == p && v % 10 == d) by (nonlinear_arith)
            requires
                v == p * 10 + d,
                p >= 1,
                0 <= d < 10,
        ;
        assert(digit_char(digit_val(s.last())) == s.last());
        assert(dec_digits(v) == dec_digits(v / 10).push(digit_char(v % 10)));
        assert(pre.push(s.last()) =~= s);
    }
}

pub fn decimal_digit(d: u32) -> (c: char)
    requires
        d <= 9,
    ensures
        c == digit_char(d as int),
{
    if d == 0 {
        '0'
    } else if d == 1 {
        '1'
    } else if d == 2 {
        '2'
    } else if d == 3 {
        '3'
    } else if d == 4 {
        '4'
    } else if d == 5 {
        '5'
    } else if d == 6 {
        '6'
    } else if d == 7 {
        '7'
    } else if d == 8 {
        '8'
    } else {
        '9'
    }
}

/// Renders `n` as its canonical decimal string.
pub fn render_dec(n: u64) -> (r: String)
    ensures
        r@ == dec_digits(n as int),
    decreases n,
{
    if n <= 9 {
        let mut s = String::new();
        s.push(decimal_digit(n as u32));
        proof {
            assert(s@ =~= dec_digits(n as int));
        }
        s
    } else {
        let mut s = render_dec(n / 10);
        s.push(decimal_digit((n % 10) as u32));
        s
    }
}

/// Reads the digit run `digits` in `base`, reporting `None` where the value
/// exceeds `bound`.
pub fn digits_to_val(digits: &Vec<char>, base: u32, bound: u64) -> (r: Option<u64>)
    requires
        2 <= base <= 16,
        bound >= 15,
        forall|k: int| 0 <= k < digits@.len() ==> is_digit_in(#[trigger] digits@[k], base as int),
    ensures
        match r {
            Some(v) => v == digits_val(digits@, base as int) && v <= bound,
            None => digits_val(digits@, base as int) > bound,
        },
{
    let mut acc: u64 = 0;
    let mut i: usize = 0;
    proof {
        assert(digits@.take(0) =~= Seq::<char>::empty());
    }
    while i < digits.len()
        invariant
            0 <= i <= digits@.len(),
            2 <= base <= 16,
            bound >= 15,
            forall|k: int| 0 <= k < digits@.len() ==> is_digit_in(#[trigger] digits@[k], base as int),
            acc == digits_val(digits@.take(i as int), base as int),
            acc <= bound,
        decreases digits@.len() - i,
    {
        let d = digit_value(digits[i]);
        proof {
            assert(digits@.take(i + 1).drop_last() =~= digits@.take(i as int));
            assert(digits@.take(i + 1).last() == digits@[i as int]);
        }
        if acc > (bound - d as u64) / (base as u64) {
            proof {
                assert(digits_val(digits@.take(i + 1), base as int) == acc * (base as int)
                    + d as int);
                assert(acc * (base as int) + d as int > bound) by (nonlinear_arith)
                    requires
                        acc as int > (bound as int - d as int) / (base as int),
                        2 <= base <= 16,
                        d <= 15,
                        bound >= 15,
                        d <= bound,
                ;
                lemma_digits_val_prefix(digits@, base as int, i + 1);
            }
            return None;
        }
        proof {
            assert(acc * (base as int) + (d as int) <= bound) by (nonlinear_arith)
                requires
                    acc as int <= (bound as int - d as int) / (base as int),
                    2 <= base <= 16,
                    d <= 15,
                    d <= bound,
                    bound >= 15,
            ;
        }
        acc = acc * (base as u64) + (d as u64);
        i = i + 1;
    }
    proof {
        assert(digits@.take(digits@.len() as int) =~= digits@);
    }
    Some(acc)
}

} // verus!
