//! The matchers: independent, stateless recognizers, each owning one lexical
//! sub-grammar, together with the specification-level model of what each one
//! does at a given stream position.

use vstd::prelude::*;
use vstd::string::StringExecFns;
use crate::chars::{
    alphabetic, alphanumeric, clone_string, dec_digits, digit_val, digits_val, digits_to_val,
    decimal_digit, is_digit, is_digit_in, is_space, render_dec, space,
};
use crate::error::{LexError, LexErrorKind};
use crate::token::{Token, TokenPosition, TokenType};
use crate::tokenizer::Tokenizer;

verus! {

/// What a matcher does at a position, at specification level: it declines,
/// it produces a token of some kind with a canonical payload moving the
/// cursor to `end`, or it finds malformed input under its grammar rule.
pub enum MatchOutcome {
    NoMatch,
    Matched { kind: TokenType, text: Seq<char>, end: int },
    Failed { err: LexErrorKind, at: int },
}

/// A class of characters a maximal run can be made of.
pub enum CharClass {
    Space,
    Digit(int),
    IdentTail,
    FloatBody,
    NonQuote,
    NonNewline,
    Indent,
}

/// Characters an identifier may continue with: alphanumerics, `_`, `?`, `!`.
pub open spec fn is_ident_char(c: char) -> bool {
    alphanumeric(c) || c == '_' || c == '?' || c == '!'
}

pub open spec fn in_class(c: char, k: CharClass) -> bool {
    match k {
        CharClass::Space => is_space(c),
        CharClass::Digit(b) => is_digit_in(c, b),
        CharClass::IdentTail => is_ident_char(c),
        CharClass::FloatBody => is_digit_in(c, 10) || c == '.',
        CharClass::NonQuote => c != '"',
        CharClass::NonNewline => c != '\n',
        CharClass::Indent => c == ' ',
    }
}

/// The end of the maximal run of characters of class `k` starting at `i`:
/// the first position at or past `i` holding no such character.
pub open spec fn run_end(s: Seq<char>, i: int, k: CharClass) -> int
    decreases s.len() - i,
{
    if 0 <= i && i < s.len() && in_class(s[i], k) {
        run_end(s, i + 1, k)
    } else {
        i
    }
}

pub proof fn lemma_run_end_bounds(s: Seq<char>, i: int, k: CharClass)
    requires
        0 <= i <= s.len(),
    ensures
        i <= run_end(s, i, k) <= s.len(),
    decreases s.len() - i,
{
    if i < s.len() && in_class(s[i], k) {
        lemma_run_end_bounds(s, i + 1, k);
    }
}

/// Where every remaining character is of class `k`, the maximal run
/// reaches the end of the buffer.
pub proof fn lemma_run_end_all(s: Seq<char>, i: int, k: CharClass)
    requires
        0 <= i <= s.len(),
        forall|j: int| i <= j < s.len() ==> in_class(#[trigger] s[j], k),
    ensures
        run_end(s, i, k) == s.len(),
    decreases s.len() - i,
{
    if i < s.len() {
        lemma_run_end_all(s, i + 1, k);
    }
}

/// The number of decimal points in `s`.
pub open spec fn dots_in(s: Seq<char>) -> int
    decreases s.len(),
{
    if s.len() == 0 {
        0
    } else {
        dots_in(s.drop_last()) + if s.last() == '.' {
            1int
        } else {
            0int
        }
    }
}

pub proof fn lemma_dots_in_prefix(s: Seq<char>, m: int)
    requires
        0 <= m <= s.len(),
    ensures
        dots_in(s.take(m)) <= dots_in(s),
    decreases s.len() - m,
{
    if m < s.len() {
        assert(s.take(m + 1).drop_last() =~= s.take(m));
        assert(s.take(m + 1).last() == s[m]);
        lemma_dots_in_prefix(s, m + 1);
    } else {
        assert(s.take(m) =~= s);
    }
}

// ------------------------------------------------------------------
// Whitespace
// ------------------------------------------------------------------
/// What the whitespace matcher does: it consumes the maximal run of
/// whitespace and succeeds exactly where that run is non-empty, producing a
/// token with an empty payload (a pure elision signal).
pub open spec fn whitespace_outcome(s: Seq<char>, i: int) -> MatchOutcome {
    let e = run_end(s, i, CharClass::Space);
    if e > i {
        MatchOutcome::Matched { kind: TokenType::Whitespace, text: Seq::empty(), end: e }
    } else {
        MatchOutcome::NoMatch
    }
}

/// How a matcher's executable result relates to its specification-level
/// outcome: the buffer and the snapshot stack are untouched, the cursor
/// stays inside the buffer, and the result mirrors the outcome. On a match
/// the cursor rests at the token's end; on a decline or a failure the
/// stream wrapper is responsible for restoring the cursor.
pub open spec fn match_step(
    pre: Tokenizer,
    post: Tokenizer,
    r: Result<Option<Token>, LexError>,
    outcome: MatchOutcome,
) -> bool {
    &&& post.items@ == pre.items@
    &&& post.snapshots@ == pre.snapshots@
    &&& post.index <= post.items@.len()
    &&& match outcome {
        MatchOutcome::NoMatch => r == Ok::<Option<Token>, LexError>(None),
        MatchOutcome::Matched { kind, text, end } => match r {
            Ok(Some(tok)) => {
                &&& tok.token_type == kind
                &&& tok.content@ == text
                &&& tok.position == (TokenPosition { start: pre.index, end: end as usize })
                &&& post.index == end
            },
            _ => false,
        },
        MatchOutcome::Failed { err, at } => match r {
            Err(e) => e == (LexError {
                kind: err,
                position: TokenPosition { start: at as usize, end: at as usize },
            }),
            _ => false,
        },
    }
}

// ------------------------------------------------------------------
// Integer literals
// ------------------------------------------------------------------
/// The base selected by a prefix at `j`: `0x` switches to 16, `0b` to 2,
/// anything else stays decimal.
pub open spec fn int_base(s: Seq<char>, j: int) -> int {
    if 0 <= j && j + 1 < s.len() && s[j] == '0' && s[j + 1] == 'x' {
        16
    } else if 0 <= j && j + 1 < s.len() && s[j] == '0' && s[j + 1] == 'b' {
        2
    } else {
        10
    }
}

/// The magnitude bound an integer literal must stay within: a negative
/// literal is re-rendered through a signed 64-bit value, a non-negative one
/// through an unsigned 64-bit value.
pub open spec fn int_magnitude_bound(neg: bool) -> int {
    if neg {
        0x7fff_ffff_ffff_ffff
    } else {
        0xffff_ffff_ffff_ffff
    }
}

/// What the integer matcher does: an optional minus sign, an optional base
/// prefix, then the maximal run of digits of the selected base. It succeeds
/// exactly where that run is non-empty, and its payload is the canonical
/// base-10 rendering of the run's value (a negative literal keeps its
/// minus). A magnitude past the 64-bit range is a numeric-overflow failure.
pub open spec fn int_outcome(s: Seq<char>, i: int) -> MatchOutcome {
    let neg = 0 <= i < s.len() && s[i] == '-';
    let j = if neg {
        i + 1
    } else {
        i
    };
    let base = int_base(s, j);
    let k = if base != 10 {
        j + 2
    } else {
        j
    };
    let e = run_end(s, k, CharClass::Digit(base));
    if e <= k {
        MatchOutcome::NoMatch
    } else {
        let v = digits_val(s.subrange(k, e), base);
        if v > int_magnitude_bound(neg) {
            MatchOutcome::Failed { err: LexErrorKind::NumericOverflow, at: i }
        } else {
            MatchOutcome::Matched {
                kind: TokenType::IntLiteral,
                text: if neg {
                    seq!['-'] + dec_digits(v)
                } else {
                    dec_digits(v)
                },
                end: e,
            }
        }
    }
}

/// For any non-negative decimal literal without extraneous leading zeros,
/// the integer matcher consumes it whole and emits it verbatim as its
/// canonical text, and that text parses back to the identical numeric
/// value. A literal past the unsigned 64-bit range is left out: the
/// matcher reports it as a numeric overflow instead.
pub proof fn lemma_decimal_literal_parses_back(s: Seq<char>)
    requires
        s.len() > 0,
        forall|j: int| 0 <= j < s.len() ==> is_digit_in(#[trigger] s[j], 10),
        s.len() > 1 ==> s[0] != '0',
        digits_val(s, 10) <= 0xffff_ffff_ffff_ffff,
    ensures
        int_outcome(s, 0) == (MatchOutcome::Matched {
            kind: TokenType::IntLiteral,
            text: dec_digits(digits_val(s, 10)),
            end: s.len() as int,
        }),
        dec_digits(digits_val(s, 10)) == s,
        digits_val(dec_digits(digits_val(s, 10)), 10) == digits_val(s, 10),
{
    assert(s[0] != '-');
    lemma_run_end_all(s, 0, CharClass::Digit(10));
    assert(s.subrange(0, s.len() as int) =~= s);
    crate::chars::lemma_digits_val_nonneg(s, 10);
    crate::chars::lemma_dec_digits_of_digit_string(s);
    crate::chars::lemma_dec_digits_parse_back(digits_val(s, 10));
}

/// A matcher that matches integer literals in bases 2, 10 and 16.
pub struct IntLiteralMatcher {}

impl IntLiteralMatcher {
    pub fn try_match(&self, t: &mut Tokenizer) -> (r: Result<Option<Token>, LexError>)
        requires
            old(t).wf(),
        ensures
            match_step(*old(t), *final(t), r, int_outcome(old(t).items@, old(t).index as int)),
    {
        let ghost s = t.items@;
        let ghost i0 = t.index as int;
        let start = t.index();
        let negative = match t.peek() {
            Some(c) => c == '-',
            None => false,
        };
        if negative {
            t.advance(1);
        }
        let base: u32 = if t.index < t.items.len() && t.items[t.index] == '0' && t.index + 1
            < t.items.len() && t.items[t.index + 1] == 'x' {
            16
        } else if t.index < t.items.len() && t.items[t.index] == '0' && t.index + 1
            < t.items.len() && t.items[t.index + 1] == 'b' {
            2
        } else {
            10
        };
        if base != 10 {
            t.advance(2);
        }
        let ghost k = t.index as int;
        let mut digits: Vec<char> = Vec::new();
        proof {
            assert(digits@ =~= s.subrange(k, k));
        }
        while t.index < t.items.len() && is_digit(t.items[t.index], base)
            invariant
                t.wf(),
                t.items@ == s,
                t.snapshots@ == old(t).snapshots@,
                0 <= k <= t.index <= s.len(),
                2 <= base <= 16,
                run_end(s, k, CharClass::Digit(base as int)) == run_end(
                    s,
                    t.index as int,
                    CharClass::Digit(base as int),
                ),
                digits@ == s.subrange(k, t.index as int),
                forall|q: int|
                    0 <= q < digits@.len() ==> is_digit_in(#[trigger] digits@[q], base as int),
            decreases s.len() - t.index,
        {
            proof {
                assert(run_end(s, t.index as int, CharClass::Digit(base as int)) == run_end(
                    s,
                    t.index + 1,
                    CharClass::Digit(base as int),
                ));
                assert(s.subrange(k, t.index as int).push(s[t.index as int]) =~= s.subrange(
                    k,
                    t.index + 1,
                ));
            }
            digits.push(t.items[t.index]);
            t.advance(1);
        }
        proof {
            assert(run_end(s, t.index as int, CharClass::Digit(base as int)) == t.index as int);
        }
        if digits.len() == 0 {
            return Ok(None);
        }
        let bound: u64 = if negative {
            0x7fff_ffff_ffff_ffff
        } else {
            0xffff_ffff_ffff_ffff
        };
        match digits_to_val(&digits, base, bound) {
            None => Err(LexError::new(
                LexErrorKind::NumericOverflow,
                TokenPosition::new(start, start),
            )),
            Some(v) => {
                let rendered = render_dec(v);
                let content = if negative {
                    let mut m = String::new();
                    m.push('-');
                    m.append(rendered.as_str());
                    proof {
                        assert(m@ =~= seq!['-'] + rendered@);
                    }
                    m
                } else {
                    rendered
                };
                Ok(
                    Some(
                        Token::new(TokenType::IntLiteral, TokenPosition::new(start, t.index()), content),
                    ),
                )
            },
        }
    }
}

// ------------------------------------------------------------------
// Float literals
// ------------------------------------------------------------------
/// What the float matcher does: starting on a digit or a decimal point, it
/// consumes the maximal run of digits and points. A run with no point is
/// declined (it is an integer), a run with two points is a malformed-number
/// failure, and a run with exactly one point is canonicalized to a
/// two-sided decimal string: a missing side becomes a single `0`.
pub open spec fn float_outcome(s: Seq<char>, i: int) -> MatchOutcome {
    if !(0 <= i < s.len() && (is_digit_in(s[i], 10) || s[i] == '.')) {
        MatchOutcome::NoMatch
    } else {
        let e = run_end(s, i, CharClass::FloatBody);
        let body = s.subrange(i, e);
        if dots_in(body) >= 2 {
            MatchOutcome::Failed { err: LexErrorKind::MalformedNumber, at: i }
        } else if dots_in(body) == 0 {
            MatchOutcome::NoMatch
        } else {
            let lead: Seq<char> = if s[i] == '.' {
                seq!['0']
            } else {
                Seq::empty()
            };
            let trail: Seq<char> = if s[e - 1] == '.' {
                seq!['0']
            } else {
                Seq::empty()
            };
            MatchOutcome::Matched {
                kind: TokenType::FloatLiteral,
                text: lead + body + trail,
                end: e,
            }
        }
    }
}

/// A matcher that matches float literals.
pub struct FloatLiteralMatcher {}

impl FloatLiteralMatcher {
    pub fn try_match(&self, t: &mut Tokenizer) -> (r: Result<Option<Token>, LexError>)
        requires
            old(t).wf(),
        ensures
            match_step(*old(t), *final(t), r, float_outcome(old(t).items@, old(t).index as int)),
    {
        let ghost s = t.items@;
        let ghost i0 = t.index as int;
        let start = t.index();
        let first = match t.peek() {
            Some(c) => c,
            None => {
                return Ok(None);
            },
        };
        let mut accum = String::new();
        let mut dot_seen: bool;
        if is_digit(first, 10) {
            accum.push(first);
            dot_seen = false;
        } else if first == '.' {
            accum.push('0');
            accum.push('.');
            dot_seen = true;
        } else {
            return Ok(None);
        }
        t.advance(1);
        let ghost lead: Seq<char> = if s[i0] == '.' {
            seq!['0']
        } else {
            Seq::empty()
        };
        proof {
            assert(s.subrange(i0, i0 + 1) =~= seq![s[i0]]);
            assert(accum@ =~= lead + s.subrange(i0, i0 + 1));
            assert(s.subrange(i0, i0 + 1).drop_last() =~= Seq::<char>::empty());
            assert(dots_in(Seq::<char>::empty()) == 0);
            assert(dots_in(s.subrange(i0, i0 + 1)) == (if s[i0] == '.' {
                1int
            } else {
                0int
            }));
            assert(run_end(s, i0, CharClass::FloatBody) == run_end(s, i0 + 1, CharClass::FloatBody));
        }
        while t.index < t.items.len() && (is_digit(t.items[t.index], 10) || t.items[t.index]
            == '.')
            invariant
                t.wf(),
                t.items@ == s,
                s == old(t).items@,
                i0 == old(t).index as int,
                t.snapshots@ == old(t).snapshots@,
                0 <= i0 < t.index <= s.len(),
                is_digit_in(s[i0], 10) || s[i0] == '.',
                lead == (if s[i0] == '.' {
                    seq!['0']
                } else {
                    Seq::<char>::empty()
                }),
                run_end(s, i0, CharClass::FloatBody) == run_end(
                    s,
                    t.index as int,
                    CharClass::FloatBody,
                ),
                accum@ == lead + s.subrange(i0, t.index as int),
                dots_in(s.subrange(i0, t.index as int)) == (if dot_seen {
                    1int
                } else {
                    0int
                }),
                start == i0,
            decreases s.len() - t.index,
        {
            let c = t.items[t.index];
            proof {
                assert(run_end(s, t.index as int, CharClass::FloatBody) == run_end(
                    s,
                    t.index + 1,
                    CharClass::FloatBody,
                ));
                assert(s.subrange(i0, t.index + 1).drop_last() =~= s.subrange(i0, t.index as int));
                assert(s.subrange(i0, t.index as int).push(c) =~= s.subrange(i0, t.index + 1));
            }
            if c == '.' {
                if dot_seen {
                    proof {
                        let e = run_end(s, i0, CharClass::FloatBody);
                        lemma_run_end_bounds(s, t.index + 1, CharClass::FloatBody);
                        assert(t.index + 1 <= e);
                        assert(s.subrange(i0, t.index + 1).last() == s[t.index as int]);
                        assert(dots_in(s.subrange(i0, t.index + 1)) == 2);
                        assert(s.subrange(i0, t.index + 1) =~= s.subrange(i0, e).take(
                            t.index + 1 - i0,
                        ));
                        lemma_dots_in_prefix(s.subrange(i0, e), t.index + 1 - i0);
                        assert(dots_in(s.subrange(i0, e)) >= 2);
                        assert(float_outcome(s, i0) == MatchOutcome::Failed {
                            err: LexErrorKind::MalformedNumber,
                            at: i0,
                        });
                    }
                    return Err(LexError::new(
                        LexErrorKind::MalformedNumber,
                        TokenPosition::new(start, start),
                    ));
                }
                dot_seen = true;
            }
            accum.push(c);
            t.advance(1);
        }
        proof {
            assert(run_end(s, t.index as int, CharClass::FloatBody) == t.index as int);
        }
        if !dot_seen {
            return Ok(None);
        }
        if t.items[t.index - 1] == '.' {
            accum.push('0');
            proof {
                assert(accum@ =~= lead + s.subrange(i0, t.index as int) + seq!['0']);
            }
        } else {
            proof {
                assert(accum@ =~= lead + s.subrange(i0, t.index as int) + Seq::<char>::empty());
            }
        }
        Ok(
            Some(
                Token::new(TokenType::FloatLiteral, TokenPosition::new(start, t.index()), accum),
            ),
        )
    }
}

// ------------------------------------------------------------------
// String, char and raw string literals
// ------------------------------------------------------------------
/// The character an escape sequence `\c` decodes to, or nothing where `c`
/// is outside the recognized escape set.
pub open spec fn escape_of(c: char) -> Option<char> {
    if c == '\\' {
        Some('\\')
    } else if c == '\'' {
        Some('\'')
    } else if c == '"' {
        Some('"')
    } else if c == 'n' {
        Some('\n')
    } else if c == 'r' {
        Some('\r')
    } else if c == 't' {
        Some('\t')
    } else {
        None
    }
}

/// How a scan of an escaped literal body ends: with the decoded content and
/// the position of the closing delimiter, at the end of input, or at an
/// unrecognized escape.
pub enum ScanOutcome {
    Done { text: Seq<char>, end: int },
    Unterminated,
    BadEscape { at: int },
}

/// The scan of an escaped literal body from `j` up to an unescaped `delim`:
/// backslash escapes are decoded, every other character is copied.
pub open spec fn esc_scan(s: Seq<char>, j: int, delim: char) -> ScanOutcome
    decreases s.len() - j,
{
    if j < 0 || j >= s.len() {
        ScanOutcome::Unterminated
    } else if s[j] == delim {
        ScanOutcome::Done { text: Seq::empty(), end: j }
    } else if s[j] == '\\' {
        if j + 1 >= s.len() {
            ScanOutcome::Unterminated
        } else {
            match escape_of(s[j + 1]) {
                None => ScanOutcome::BadEscape { at: j + 1 },
                Some(c) => match esc_scan(s, j + 2, delim) {
                    ScanOutcome::Done { text, end } => ScanOutcome::Done {
                        text: seq![c] + text,
                        end,
                    },
                    other => other,
                },
            }
        }
    } else {
        match esc_scan(s, j + 1, delim) {
            ScanOutcome::Done { text, end } => ScanOutcome::Done {
                text: seq![s[j]] + text,
                end,
            },
            other => other,
        }
    }
}

/// A scan, seen from midway through: the content decoded so far is
/// prepended to whatever the rest of the scan produces.
pub open spec fn scan_extend(prefix: Seq<char>, sc: ScanOutcome) -> ScanOutcome {
    match sc {
        ScanOutcome::Done { text, end } => ScanOutcome::Done { text: prefix + text, end },
        other => other,
    }
}

/// What the string matcher does. Three forms are disambiguated by the
/// opening characters: `"` opens an escaped string, `'` an escaped char
/// literal, and `r"` a raw string copied verbatim up to the next `"`.
/// Reaching end of input before the closing delimiter is an
/// unterminated-literal failure; a char literal whose decoded content is
/// not exactly one character is an invalid-char-literal failure.
pub open spec fn string_outcome(s: Seq<char>, i: int) -> MatchOutcome {
    if !(0 <= i < s.len()) {
        MatchOutcome::NoMatch
    } else if s[i] == '"' || s[i] == '\'' {
        let delim = s[i];
        match esc_scan(s, i + 1, delim) {
            ScanOutcome::Unterminated => MatchOutcome::Failed {
                err: LexErrorKind::UnterminatedLiteral,
                at: i,
            },
            ScanOutcome::BadEscape { at } => MatchOutcome::Failed {
                err: LexErrorKind::InvalidEscape,
                at,
            },
            ScanOutcome::Done { text, end } => {
                if delim == '"' {
                    MatchOutcome::Matched { kind: TokenType::StringLiteral, text, end: end + 1 }
                } else if text.len() == 1 {
                    MatchOutcome::Matched { kind: TokenType::CharLiteral, text, end: end + 1 }
                } else {
                    MatchOutcome::Failed { err: LexErrorKind::InvalidCharLiteral, at: i }
                }
            },
        }
    } else if s[i] == 'r' && i + 1 < s.len() && s[i + 1] == '"' {
        let e = run_end(s, i + 2, CharClass::NonQuote);
        if e >= s.len() {
            MatchOutcome::Failed { err: LexErrorKind::UnterminatedLiteral, at: i }
        } else {
            MatchOutcome::Matched {
                kind: TokenType::StringLiteral,
                text: s.subrange(i + 2, e),
                end: e + 1,
            }
        }
    } else {
        MatchOutcome::NoMatch
    }
}

/// A matcher that matches string, char and raw string literals.
pub struct StringLiteralMatcher {}

impl StringLiteralMatcher {
    pub fn try_match(&self, t: &mut Tokenizer) -> (r: Result<Option<Token>, LexError>)
        requires
            old(t).wf(),
        ensures
            match_step(*old(t), *final(t), r, string_outcome(old(t).items@, old(t).index as int)),
    {
        let ghost s = t.items@;
        let ghost i0 = t.index as int;
        let start = t.index();
        if t.index >= t.items.len() {
            return Ok(None);
        }
        let c0 = t.items[t.index];
        if c0 == '"' || c0 == '\'' {
            let delim = c0;
            t.advance(1);
            let ghost j0 = t.index as int;
            let mut content = String::new();
            proof {
                match esc_scan(s, j0, delim) {
                    ScanOutcome::Done { text, end } => {
                        assert(content@ + text =~= text);
                    },
                    _ => {},
                }
            }
            loop
                invariant
                    t.wf(),
                    t.items@ == s,
                    s == old(t).items@,
                    i0 == old(t).index as int,
                    t.snapshots@ == old(t).snapshots@,
                    0 <= i0,
                    j0 == i0 + 1,
                    j0 <= t.index <= s.len(),
                    delim == s[i0],
                    delim == '"' || delim == '\'',
                    start == i0,
                    esc_scan(s, j0, delim) == scan_extend(
                        content@,
                        esc_scan(s, t.index as int, delim),
                    ),
                ensures
                    t.wf(),
                    t.items@ == s,
                    t.snapshots@ == old(t).snapshots@,
                    j0 <= t.index < s.len(),
                    s[t.index as int] == delim,
                    esc_scan(s, j0, delim) == scan_extend(
                        content@,
                        esc_scan(s, t.index as int, delim),
                    ),
                decreases s.len() - t.index,
            {
                if t.index >= t.items.len() {
                    return Err(LexError::new(
                        LexErrorKind::UnterminatedLiteral,
                        TokenPosition::new(start, start),
                    ));
                }
                let c = t.items[t.index];
                if c == delim {
                    break ;
                }
                if c == '\\' {
                    if t.index + 1 >= t.items.len() {
                        return Err(LexError::new(
                            LexErrorKind::UnterminatedLiteral,
                            TokenPosition::new(start, start),
                        ));
                    }
                    let e = t.items[t.index + 1];
                    let decoded: char = if e == '\\' {
                        '\\'
                    } else if e == '\'' {
                        '\''
                    } else if e == '"' {
                        '"'
                    } else if e == 'n' {
                        '\n'
                    } else if e == 'r' {
                        '\r'
                    } else if e == 't' {
                        '\t'
                    } else {
                        return Err(LexError::new(
                            LexErrorKind::InvalidEscape,
                            TokenPosition::new(t.index + 1, t.index + 1),
                        ));
                    };
                    proof {
                        assert(escape_of(s[t.index + 1]) == Some(decoded));
                        match esc_scan(s, t.index + 2, delim) {
                            ScanOutcome::Done { text, end } => {
                                assert(content@ + (seq![decoded] + text) =~= content@.push(decoded)
                                    + text);
                            },
                            _ => {},
                        }
                    }
                    content.push(decoded);
                    t.advance(2);
                } else {
                    proof {
                        match esc_scan(s, t.index + 1, delim) {
                            ScanOutcome::Done { text, end } => {
                                assert(content@ + (seq![c] + text) =~= content@.push(c) + text);
                            },
                            _ => {},
                        }
                    }
                    content.push(c);
                    t.advance(1);
                }
            }
            proof {
                assert(esc_scan(s, t.index as int, delim) == (ScanOutcome::Done {
                    text: Seq::<char>::empty(),
                    end: t.index as int,
                }));
                assert(content@ + Seq::<char>::empty() =~= content@);
                assert(esc_scan(s, j0, delim) == (ScanOutcome::Done {
                    text: content@,
                    end: t.index as int,
                }));
            }
            t.advance(1);
            if delim == '"' {
                Ok(
                    Some(
                        Token::new(
                            TokenType::StringLiteral,
                            TokenPosition::new(start, t.index()),
                            content,
                        ),
                    ),
                )
            } else if content.as_str().unicode_len() == 1 {
                Ok(
                    Some(
                        Token::new(
                            TokenType::CharLiteral,
                            TokenPosition::new(start, t.index()),
                            content,
                        ),
                    ),
                )
            } else {
                Err(LexError::new(
                    LexErrorKind::InvalidCharLiteral,
                    TokenPosition::new(start, start),
                ))
            }
        } else if c0 == 'r' && t.index + 1 < t.items.len() && t.items[t.index + 1] == '"' {
            t.advance(2);
            let ghost j0 = t.index as int;
            let mut content = String::new();
            proof {
                assert(content@ =~= s.subrange(j0, j0));
            }
            while t.index < t.items.len() && t.items[t.index] != '"'
                invariant
                    t.wf(),
                    t.items@ == s,
                    s == old(t).items@,
                    i0 == old(t).index as int,
                    t.snapshots@ == old(t).snapshots@,
                    0 <= i0,
                    j0 == i0 + 2,
                    j0 <= t.index <= s.len(),
                    run_end(s, j0, CharClass::NonQuote) == run_end(
                        s,
                        t.index as int,
                        CharClass::NonQuote,
                    ),
                    content@ == s.subrange(j0, t.index as int),
                    start == i0,
                decreases s.len() - t.index,
            {
                let c = t.items[t.index];
                proof {
                    assert(run_end(s, t.index as int, CharClass::NonQuote) == run_end(
                        s,
                        t.index + 1,
                        CharClass::NonQuote,
                    ));
                    assert(s.subrange(j0, t.index as int).push(c) =~= s.subrange(j0, t.index + 1));
                }
                content.push(c);
                t.advance(1);
            }
            proof {
                assert(run_end(s, t.index as int, CharClass::NonQuote) == t.index as int);
            }
            if t.index >= t.items.len() {
                return Err(LexError::new(
                    LexErrorKind::UnterminatedLiteral,
                    TokenPosition::new(start, start),
                ));
            }
            t.advance(1);
            Ok(
                Some(
                    Token::new(
                        TokenType::StringLiteral,
                        TokenPosition::new(start, t.index()),
                        content,
                    ),
                ),
            )
        } else {
            Ok(None)
        }
    }
}

// ------------------------------------------------------------------
// Identifiers
// ------------------------------------------------------------------
/// What the identifier matcher does: it succeeds exactly where the current
/// character is alphabetic or `_`, and then consumes the maximal run of
/// alphanumerics, `_`, `?` and `!`. The payload is the consumed span
/// verbatim.
pub open spec fn ident_outcome(s: Seq<char>, i: int) -> MatchOutcome {
    if 0 <= i < s.len() && (alphabetic(s[i]) || s[i] == '_') {
        let e = run_end(s, i + 1, CharClass::IdentTail);
        MatchOutcome::Matched { kind: TokenType::Identifier, text: s.subrange(i, e), end: e }
    } else {
        MatchOutcome::NoMatch
    }
}

/// A token starting with a decimal digit is never an identifier.
pub proof fn lemma_digit_starts_no_identifier(s: Seq<char>, i: int)
    requires
        0 <= i < s.len(),
        is_digit_in(s[i], 10),
    ensures
        ident_outcome(s, i) == MatchOutcome::NoMatch,
{
}

/// A matcher that matches identifiers.
pub struct IdentifierMatcher {}

impl IdentifierMatcher {
    pub fn try_match(&self, t: &mut Tokenizer) -> (r: Result<Option<Token>, LexError>)
        requires
            old(t).wf(),
        ensures
            match_step(*old(t), *final(t), r, ident_outcome(old(t).items@, old(t).index as int)),
    {
        let ghost s = t.items@;
        let ghost i0 = t.index as int;
        let start = t.index();
        let first = match t.peek() {
            Some(c) => c,
            None => {
                return Ok(None);
            },
        };
        if !(first.is_alphabetic() || first == '_') {
            return Ok(None);
        }
        let mut ident = String::new();
        ident.push(first);
        t.advance(1);
        proof {
            assert(ident@ =~= s.subrange(i0, i0 + 1));
        }
        while t.index < t.items.len() && ident_char(t.items[t.index])
            invariant
                t.wf(),
                t.items@ == s,
                s == old(t).items@,
                i0 == old(t).index as int,
                t.snapshots@ == old(t).snapshots@,
                0 <= i0 < t.index <= s.len(),
                run_end(s, i0 + 1, CharClass::IdentTail) == run_end(
                    s,
                    t.index as int,
                    CharClass::IdentTail,
                ),
                ident@ == s.subrange(i0, t.index as int),
                start == i0,
            decreases s.len() - t.index,
        {
            let c = t.items[t.index];
            proof {
                assert(run_end(s, t.index as int, CharClass::IdentTail) == run_end(
                    s,
                    t.index + 1,
                    CharClass::IdentTail,
                ));
                assert(s.subrange(i0, t.index as int).push(c) =~= s.subrange(i0, t.index + 1));
            }
            ident.push(c);
            t.advance(1);
        }
        proof {
            assert(run_end(s, t.index as int, CharClass::IdentTail) == t.index as int);
        }
        Ok(Some(Token::new(TokenType::Identifier, TokenPosition::new(start, t.index()), ident)))
    }
}

/// Whether `c` may continue an identifier.
pub fn ident_char(c: char) -> (r: bool)
    ensures
        r == is_ident_char(c),
{
    c.is_alphanumeric() || c == '_' || c == '?' || c == '!'
}

// ------------------------------------------------------------------
// Fixed constants
// ------------------------------------------------------------------
/// Whether the word `w` stands at position `i` of `s`.
pub open spec fn prefix_matches(s: Seq<char>, i: int, w: Seq<char>) -> bool {
    i + w.len() <= s.len() && s.subrange(i, i + w.len()) == w
}

/// What a constant matcher with table `ws` does: the first word of the
/// table, in table order, that stands at the current position wins, and the
/// cursor skips it. A word that does not fit in the remaining input is
/// passed over like any other mismatch.
pub open spec fn constants_outcome(ws: Seq<Seq<char>>, kind: TokenType, s: Seq<char>, i: int)
    -> MatchOutcome
    decreases ws.len(),
{
    if ws.len() == 0 {
        MatchOutcome::NoMatch
    } else if prefix_matches(s, i, ws[0]) {
        MatchOutcome::Matched { kind, text: ws[0], end: i + ws[0].len() }
    } else {
        constants_outcome(ws.drop_first(), kind, s, i)
    }
}

/// Whether `a` is a proper prefix of `b`.
pub open spec fn is_proper_prefix(a: Seq<char>, b: Seq<char>) -> bool {
    a.len() < b.len() && a == b.take(a.len() as int)
}

/// The load-bearing ordering contract of a constant table: no word is
/// preceded by a proper prefix of itself, so the first match in table order
/// is never cut short by a shorter word.
pub open spec fn prefix_ordered(ws: Seq<Seq<char>>) -> bool {
    forall|i: int, j: int|
        0 <= i < j < ws.len() ==> !is_proper_prefix(#[trigger] ws[i], #[trigger] ws[j])
}

/// Whether `a` is a proper prefix of `b`.
pub fn proper_prefix_check(a: &String, b: &String) -> (r: bool)
    ensures
        r == is_proper_prefix(a@, b@),
{
    let la = a.as_str().unicode_len();
    let lb = b.as_str().unicode_len();
    if la >= lb {
        return false;
    }
    let mut q: usize = 0;
    while q < la
        invariant
            la == a@.len(),
            lb == b@.len(),
            la < lb,
            0 <= q <= la,
            forall|x: int| 0 <= x < q ==> a@[x] == b@.take(la as int)[x],
        decreases la - q,
    {
        if a.as_str().get_char(q) != b.as_str().get_char(q) {
            proof {
                assert(a@[q as int] != b@.take(la as int)[q as int]);
            }
            return false;
        }
        q = q + 1;
    }
    proof {
        assert(a@ =~= b@.take(la as int));
    }
    true
}

/// Why the ordering contract is load-bearing: over a prefix-ordered table,
/// the first word to match in table order is a longest match, so no
/// operator is ever read as a truncation of a longer one that also stands
/// at the same position.
pub proof fn lemma_ordered_table_matches_longest(
    ws: Seq<Seq<char>>,
    kind: TokenType,
    s: Seq<char>,
    i: int,
)
    requires
        prefix_ordered(ws),
        0 <= i <= s.len(),
    ensures
        match constants_outcome(ws, kind, s, i) {
            MatchOutcome::Matched { kind: k2, text, end } => forall|j: int|
                0 <= j < ws.len() && prefix_matches(s, i, #[trigger] ws[j]) ==> ws[j].len()
                    <= text.len(),
            _ => true,
        },
    decreases ws.len(),
{
    if ws.len() > 0 {
        if prefix_matches(s, i, ws[0]) {
            let text = ws[0];
            assert forall|j: int|
                0 <= j < ws.len() && prefix_matches(s, i, #[trigger] ws[j]) implies ws[j].len()
                <= text.len() by {
                if ws[j].len() > text.len() {
                    assert(s.subrange(i, i + text.len()) == ws[0]);
                    assert(s.subrange(i, i + ws[j].len()) == ws[j]);
                    assert(ws[j].take(text.len() as int) =~= s.subrange(i, i + text.len()));
                    assert(is_proper_prefix(ws[0], ws[j]));
                    assert(j != 0);
                    assert(!is_proper_prefix(ws[0], ws[j]));
                }
            }
        } else {
            assert(prefix_ordered(ws.drop_first())) by {
                assert forall|x: int, y: int|
                    0 <= x < y < ws.drop_first().len() implies !is_proper_prefix(
                    #[trigger] ws.drop_first()[x],
                    #[trigger] ws.drop_first()[y],
                ) by {
                    assert(ws.drop_first()[x] == ws[x + 1]);
                    assert(ws.drop_first()[y] == ws[y + 1]);
                }
            }
            lemma_ordered_table_matches_longest(ws.drop_first(), kind, s, i);
            match constants_outcome(ws.drop_first(), kind, s, i) {
                MatchOutcome::Matched { kind: k2, text, end } => {
                    assert forall|j: int|
                        0 <= j < ws.len() && prefix_matches(s, i, #[trigger] ws[j]) implies (ws[j]).len() <= text.len() by {
                        assert(j != 0);
                        assert(ws.drop_first()[j - 1] == ws[j]);
                    }
                },
                _ => {},
            }
        }
    }
}

/// A matcher that matches constant words of one specified token type.
pub struct ConstantMatcher {
    pub token_type: TokenType,
    pub constants: Vec<String>,
}

impl ConstantMatcher {
    pub fn new(token_type: TokenType, constants: Vec<String>) -> (r: ConstantMatcher)
        ensures
            r.token_type == token_type,
            r.constants == constants,
    {
        ConstantMatcher { token_type, constants }
    }

    /// Validates the ordering contract of this table at startup: rejects a
    /// configuration in which a word is preceded by a proper prefix of it,
    /// which would shadow the longer word at every position.
    pub fn well_ordered(&self) -> (r: bool)
        ensures
            r == prefix_ordered(self.constants@.map_values(|w: String| w@)),
    {
        let ghost ws = self.constants@.map_values(|w: String| w@);
        let n = self.constants.len();
        let mut i: usize = 0;
        while i < n
            invariant
                ws == self.constants@.map_values(|w: String| w@),
                n == ws.len(),
                0 <= i <= n,
                forall|x: int, y: int| 0 <= x < y < n && x < i ==> !is_proper_prefix(
                    #[trigger] ws[x],
                    #[trigger] ws[y],
                ),
            decreases n - i,
        {
            let mut j: usize = i + 1;
            while j < n
                invariant
                    ws == self.constants@.map_values(|w: String| w@),
                    n == ws.len(),
                    0 <= i < j <= n,
                    forall|y: int| i < y < j ==> !is_proper_prefix(ws[i as int], #[trigger] ws[y]),
                decreases n - j,
            {
                if proper_prefix_check(&self.constants[i], &self.constants[j]) {
                    proof {
                        assert(is_proper_prefix(ws[i as int], ws[j as int]));
                    }
                    return false;
                }
                j = j + 1;
            }
            i = i + 1;
        }
        true
    }

    pub fn try_match(&self, t: &mut Tokenizer) -> (r: Result<Option<Token>, LexError>)
        requires
            old(t).wf(),
        ensures
            match_step(
                *old(t),
                *final(t),
                r,
                constants_outcome(
                    self.constants@.map_values(|w: String| w@),
                    self.token_type,
                    old(t).items@,
                    old(t).index as int,
                ),
            ),
    {
        let ghost ws = self.constants@.map_values(|w: String| w@);
        let ghost s = t.items@;
        let ghost i0 = t.index as int;
        let start = t.index();
        let mut ci: usize = 0;
        proof {
            assert(ws.skip(0) =~= ws);
        }
        while ci < self.constants.len()
            invariant
                t.wf(),
                t.items@ == s,
                s == old(t).items@,
                i0 == old(t).index as int,
                t.index == old(t).index,
                t.snapshots@ == old(t).snapshots@,
                ws == self.constants@.map_values(|w: String| w@),
                0 <= ci <= ws.len(),
                constants_outcome(ws, self.token_type, s, i0) == constants_outcome(
                    ws.skip(ci as int),
                    self.token_type,
                    s,
                    i0,
                ),
                start == i0,
            decreases ws.len() - ci,
        {
            let w: &String = &self.constants[ci];
            let wl = w.as_str().unicode_len();
            proof {
                assert(ws.skip(ci as int)[0] == w@);
                assert(ws.skip(ci as int).drop_first() =~= ws.skip(ci + 1));
            }
            if wl <= t.items.len() - t.index {
                let mut j: usize = 0;
                let mut all_equal = true;
                while j < wl
                    invariant_except_break
                        all_equal,
                        forall|q: int| 0 <= q < j ==> s[t.index + q] == w@[q],
                    invariant
                        t.items@ == s,
                        wl == w@.len(),
                        t.index + wl <= s.len(),
                        s.len() <= usize::MAX,
                        0 <= j <= wl,
                    ensures
                        all_equal ==> (forall|q: int| 0 <= q < wl ==> s[t.index + q] == w@[q]),
                        !all_equal ==> s.subrange(t.index as int, t.index + wl) != w@,
                    decreases wl - j,
                {
                    if w.as_str().get_char(j) != t.items[t.index + j] {
                        all_equal = false;
                        proof {
                            assert(s.subrange(t.index as int, t.index + wl)[j as int] == s[t.index
                                + j]);
                        }
                        break ;
                    }
                    j = j + 1;
                }
                if all_equal {
                    proof {
                        assert(s.subrange(i0, i0 + wl as int) =~= w@);
                        assert(prefix_matches(s, i0, ws.skip(ci as int)[0]));
                        assert(constants_outcome(ws.skip(ci as int), self.token_type, s, i0)
                            == (MatchOutcome::Matched {
                            kind: self.token_type,
                            text: w@,
                            end: i0 + wl,
                        }));
                    }
                    let content = clone_string(w);
                    t.advance(wl);
                    return Ok(
                        Some(
                            Token::new(
                                self.token_type,
                                TokenPosition::new(start, t.index()),
                                content,
                            ),
                        ),
                    );
                }
                proof {
                    assert(!prefix_matches(s, i0, ws.skip(ci as int)[0]));
                }
            } else {
                proof {
                    assert(!prefix_matches(s, i0, ws.skip(ci as int)[0]));
                }
            }
            proof {
                assert(constants_outcome(ws.skip(ci as int), self.token_type, s, i0)
                    == constants_outcome(ws.skip(ci + 1), self.token_type, s, i0));
            }
            ci = ci + 1;
        }
        proof {
            assert(ws.skip(ws.len() as int).len() == 0);
        }
        Ok(None)
    }
}

// ------------------------------------------------------------------
// The dispatch point
// ------------------------------------------------------------------
/// The closed set of matchers, behind one dispatch point.
pub enum Matcher {
    Whitespace(WhitespaceMatcher),
    IntLiteral(IntLiteralMatcher),
    FloatLiteral(FloatLiteralMatcher),
    StringLiteral(StringLiteralMatcher),
    Identifier(IdentifierMatcher),
    Constant(ConstantMatcher),
}

/// What a matcher does at position `i` of `s`, by its variant.
pub open spec fn matcher_outcome(m: Matcher, s: Seq<char>, i: int) -> MatchOutcome {
    match m {
        Matcher::Whitespace(_) => whitespace_outcome(s, i),
        Matcher::IntLiteral(_) => int_outcome(s, i),
        Matcher::FloatLiteral(_) => float_outcome(s, i),
        Matcher::StringLiteral(_) => string_outcome(s, i),
        Matcher::Identifier(_) => ident_outcome(s, i),
        Matcher::Constant(cm) => constants_outcome(
            cm.constants@.map_values(|w: String| w@),
            cm.token_type,
            s,
            i,
        ),
    }
}

impl Matcher {
    /// Tries this matcher against the stream. On a decline or a failure the
    /// cursor may rest anywhere inside the buffer; the stream wrapper
    /// restores it.
    pub fn try_match(&self, t: &mut Tokenizer) -> (r: Result<Option<Token>, LexError>)
        requires
            old(t).wf(),
        ensures
            match_step(*old(t), *final(t), r, matcher_outcome(*self, old(t).items@, old(t).index as int)),
    {
        match self {
            Matcher::Whitespace(m) => m.try_match(t),
            Matcher::IntLiteral(m) => m.try_match(t),
            Matcher::FloatLiteral(m) => m.try_match(t),
            Matcher::StringLiteral(m) => m.try_match(t),
            Matcher::Identifier(m) => m.try_match(t),
            Matcher::Constant(m) => m.try_match(t),
        }
    }
}

/// A matcher that cannot succeed without consuming input: every constant in
/// a constant matcher's table is a non-empty word. The other matchers
/// consume by construction.
pub open spec fn productive(m: Matcher) -> bool {
    match m {
        Matcher::Constant(cm) => forall|k: int|
            0 <= k < cm.constants@.len() ==> (#[trigger] cm.constants@[k])@.len() > 0,
        _ => true,
    }
}

pub proof fn lemma_esc_scan_bounds(s: Seq<char>, j: int, delim: char)
    requires
        0 <= j <= s.len(),
    ensures
        match esc_scan(s, j, delim) {
            ScanOutcome::Done { text, end } => j <= end < s.len() && s[end] == delim,
            ScanOutcome::BadEscape { at } => j < at < s.len(),
            ScanOutcome::Unterminated => true,
        },
    decreases s.len() - j,
{
    if j < s.len() && s[j] != delim {
        if s[j] == '\\' {
            if j + 1 < s.len() && escape_of(s[j + 1]) is Some {
                lemma_esc_scan_bounds(s, j + 2, delim);
            }
        } else {
            lemma_esc_scan_bounds(s, j + 1, delim);
        }
    }
}

/// A matcher outcome stays inside the buffer: a success moves the cursor
/// strictly forward and a failure points inside the input.
pub open spec fn outcome_in_bounds(o: MatchOutcome, s: Seq<char>, i: int) -> bool {
    match o {
        MatchOutcome::NoMatch => true,
        MatchOutcome::Matched { kind, text, end } => i < end <= s.len(),
        MatchOutcome::Failed { err, at } => 0 <= at <= s.len(),
    }
}

pub proof fn lemma_whitespace_outcome_bounds(s: Seq<char>, i: int)
    requires
        0 <= i <= s.len(),
    ensures
        outcome_in_bounds(whitespace_outcome(s, i), s, i),
{
    lemma_run_end_bounds(s, i, CharClass::Space);
}

pub proof fn lemma_int_outcome_bounds(s: Seq<char>, i: int)
    requires
        0 <= i <= s.len(),
    ensures
        outcome_in_bounds(int_outcome(s, i), s, i),
{
    let neg = 0 <= i < s.len() && s[i] == '-';
    let j: int = if neg {
        i + 1
    } else {
        i
    };
    let base = int_base(s, j);
    let k: int = if base != 10 {
        j + 2
    } else {
        j
    };
    if k <= s.len() {
        lemma_run_end_bounds(s, k, CharClass::Digit(base));
    } else {
        assert(run_end(s, k, CharClass::Digit(base)) == k);
    }
}

pub proof fn lemma_float_outcome_bounds(s: Seq<char>, i: int)
    requires
        0 <= i <= s.len(),
    ensures
        outcome_in_bounds(float_outcome(s, i), s, i),
{
    if 0 <= i < s.len() && (is_digit_in(s[i], 10) || s[i] == '.') {
        lemma_run_end_bounds(s, i + 1, CharClass::FloatBody);
        assert(run_end(s, i, CharClass::FloatBody) == run_end(s, i + 1, CharClass::FloatBody));
    }
}

pub proof fn lemma_string_outcome_bounds(s: Seq<char>, i: int)
    requires
        0 <= i <= s.len(),
    ensures
        outcome_in_bounds(string_outcome(s, i), s, i),
{
    if 0 <= i < s.len() {
        if s[i] == '"' || s[i] == '\'' {
            lemma_esc_scan_bounds(s, i + 1, s[i]);
        } else if s[i] == 'r' && i + 1 < s.len() && s[i + 1] == '"' {
            lemma_run_end_bounds(s, i + 2, CharClass::NonQuote);
        }
    }
}

pub proof fn lemma_ident_outcome_bounds(s: Seq<char>, i: int)
    requires
        0 <= i <= s.len(),
    ensures
        outcome_in_bounds(ident_outcome(s, i), s, i),
{
    if 0 <= i < s.len() && (alphabetic(s[i]) || s[i] == '_') {
        lemma_run_end_bounds(s, i + 1, CharClass::IdentTail);
    }
}

pub proof fn lemma_constants_progress(ws: Seq<Seq<char>>, kind: TokenType, s: Seq<char>, i: int)
    requires
        0 <= i <= s.len(),
        forall|k: int| 0 <= k < ws.len() ==> (#[trigger] ws[k]).len() > 0,
    ensures
        outcome_in_bounds(constants_outcome(ws, kind, s, i), s, i),
    decreases ws.len(),
{
    if ws.len() > 0 && !prefix_matches(s, i, ws[0]) {
        assert(forall|k: int|
            0 <= k < ws.drop_first().len() ==> (#[trigger] ws.drop_first()[k]).len() > 0);
        lemma_constants_progress(ws.drop_first(), kind, s, i);
    }
}

/// A productive matcher that succeeds moves the cursor strictly forward,
/// and never past the end of the buffer; a failure points inside the input.
pub proof fn lemma_matcher_progress(m: Matcher, s: Seq<char>, i: int)
    requires
        0 <= i <= s.len(),
        productive(m),
    ensures
        outcome_in_bounds(matcher_outcome(m, s, i), s, i),
{
    match m {
        Matcher::Whitespace(_) => {
            lemma_whitespace_outcome_bounds(s, i);
        },
        Matcher::IntLiteral(_) => {
            lemma_int_outcome_bounds(s, i);
        },
        Matcher::FloatLiteral(_) => {
            lemma_float_outcome_bounds(s, i);
        },
        Matcher::StringLiteral(_) => {
            lemma_string_outcome_bounds(s, i);
        },
        Matcher::Identifier(_) => {
            lemma_ident_outcome_bounds(s, i);
        },
        Matcher::Constant(cm) => {
            let ws = cm.constants@.map_values(|w: String| w@);
            assert(forall|k: int| 0 <= k < ws.len() ==> (#[trigger] ws[k]).len() > 0) by {
                assert(forall|k: int|
                    0 <= k < ws.len() ==> ws[k] == (#[trigger] cm.constants@[k])@);
            }
            lemma_constants_progress(ws, cm.token_type, s, i);
        },
    }
}

/// A matcher that only matches whitespace.
pub struct WhitespaceMatcher {}

impl WhitespaceMatcher {
    pub fn try_match(&self, t: &mut Tokenizer) -> (r: Result<Option<Token>, LexError>)
        requires
            old(t).wf(),
        ensures
            match_step(*old(t), *final(t), r, whitespace_outcome(old(t).items@, old(t).index as int)),
    {
        let ghost s = t.items@;
        let ghost i0 = t.index as int;
        let start = t.index();
        while t.index < t.items.len() && space(t.items[t.index])
            invariant
                t.wf(),
                t.items@ == s,
                t.snapshots@ == old(t).snapshots@,
                i0 <= t.index <= s.len(),
                run_end(s, i0, CharClass::Space) == run_end(s, t.index as int, CharClass::Space),
                start == i0,
            decreases s.len() - t.index,
        {
            proof {
                assert(run_end(s, t.index as int, CharClass::Space) == run_end(
                    s,
                    t.index + 1,
                    CharClass::Space,
                ));
            }
            t.advance(1);
        }
        proof {
            assert(run_end(s, t.index as int, CharClass::Space) == t.index as int);
        }
        if t.index > start {
            Ok(
                Some(
                    Token::new(
                        TokenType::Whitespace,
                        TokenPosition::new(start, t.index()),
                        String::new(),
                    ),
                ),
            )
        } else {
            Ok(None)
        }
    }
}

} // verus!
