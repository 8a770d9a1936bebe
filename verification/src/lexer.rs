//! The matcher chain: an ordered list of matchers tried in sequence against
//! the current stream position, with whitespace elided from its output.

use vstd::prelude::*;
use vstd::string::StringExecFns;
use crate::chars::is_space;
use crate::error::{LexError, LexErrorKind};
use crate::matcher::{
    constants_outcome, float_outcome, ident_outcome, int_outcome, lemma_constants_progress,
    lemma_float_outcome_bounds, lemma_ident_outcome_bounds, lemma_int_outcome_bounds,
    lemma_matcher_progress, lemma_string_outcome_bounds, lemma_whitespace_outcome_bounds,
    match_step, matcher_outcome, outcome_in_bounds, productive, run_end, string_outcome,
    whitespace_outcome, CharClass, ConstantMatcher, FloatLiteralMatcher, IdentifierMatcher,
    IntLiteralMatcher, MatchOutcome, Matcher, StringLiteralMatcher, WhitespaceMatcher,
};
use crate::token::{SpecToken, Token, TokenPosition, TokenType};
use crate::tokenizer::Tokenizer;

verus! {

/// What a chain of matchers does at position `i`: the first matcher, in
/// chain order, that does not decline decides the outcome.
pub open spec fn chain_outcome(ms: Seq<Matcher>, s: Seq<char>, i: int) -> MatchOutcome
    decreases ms.len(),
{
    if ms.len() == 0 {
        MatchOutcome::NoMatch
    } else {
        match matcher_outcome(ms[0], s, i) {
            MatchOutcome::NoMatch => chain_outcome(ms.drop_first(), s, i),
            other => other,
        }
    }
}

/// Every matcher of the chain consumes input when it succeeds.
pub open spec fn all_productive(ms: Seq<Matcher>) -> bool {
    forall|k: int| 0 <= k < ms.len() ==> productive(#[trigger] ms[k])
}

pub proof fn lemma_chain_progress(ms: Seq<Matcher>, s: Seq<char>, i: int)
    requires
        0 <= i <= s.len(),
        all_productive(ms),
    ensures
        outcome_in_bounds(chain_outcome(ms, s, i), s, i),
    decreases ms.len(),
{
    if ms.len() > 0 {
        lemma_matcher_progress(ms[0], s, i);
        if matcher_outcome(ms[0], s, i) is NoMatch {
            assert(all_productive(ms.drop_first())) by {
                assert(forall|k: int|
                    0 <= k < ms.drop_first().len() ==> ms.drop_first()[k] == #[trigger] ms[k + 1]);
            }
            lemma_chain_progress(ms.drop_first(), s, i);
        }
    }
}

/// What repeated matching from position `i` delivers once whitespace is
/// elided: the next deliverable token, the end of the sequence, or a typed
/// failure. A position no matcher accepts is an unrecognized-character
/// failure.
pub enum LexStep {
    Eof,
    Tok { kind: TokenType, text: Seq<char>, start: int, end: int },
    Fail { err: LexErrorKind, at: int },
}

pub open spec fn next_outcome(ms: Seq<Matcher>, s: Seq<char>, i: int) -> LexStep
    decreases s.len() - i,
{
    if i >= s.len() {
        LexStep::Eof
    } else {
        match chain_outcome(ms, s, i) {
            MatchOutcome::NoMatch => LexStep::Fail {
                err: LexErrorKind::UnrecognizedCharacter,
                at: i,
            },
            MatchOutcome::Failed { err, at } => LexStep::Fail { err, at },
            MatchOutcome::Matched { kind, text, end } => {
                if kind == TokenType::Whitespace {
                    if i < end <= s.len() {
                        next_outcome(ms, s, end)
                    } else {
                        LexStep::Fail { err: LexErrorKind::UnrecognizedCharacter, at: i }
                    }
                } else if kind == TokenType::EOF {
                    LexStep::Eof
                } else {
                    LexStep::Tok { kind, text, start: i, end }
                }
            },
        }
    }
}

/// The lexer: a character stream and the ordered matcher chain run over it.
pub struct Lexer {
    pub tokenizer: Tokenizer,
    pub matchers: Vec<Matcher>,
}

impl Lexer {
    pub open spec fn wf(&self) -> bool {
        self.tokenizer.wf()
    }

    pub fn new(tokenizer: Tokenizer) -> (r: Lexer)
        ensures
            r.tokenizer == tokenizer,
            r.matchers@ == Seq::<Matcher>::empty(),
    {
        let v: Vec<Matcher> = Vec::new();
        proof {
            assert(v@ =~= Seq::<Matcher>::empty());
        }
        Lexer { tokenizer, matchers: v }
    }

    pub fn matchers(&self) -> (r: &Vec<Matcher>)
        ensures
            r@ == self.matchers@,
    {
        &self.matchers
    }

    pub fn matchers_mut(&mut self) -> (r: &mut Vec<Matcher>)
        ensures
            *r == old(self).matchers,
            final(self).matchers == *final(r),
            final(self).tokenizer == old(self).tokenizer,
    {
        &mut self.matchers
    }

    /// Tries the matchers in chain order at the current position and commits
    /// the first success. At end of input the chain synthesizes an `EOF`
    /// token; where every matcher declines the result is nothing.
    pub fn match_token(&mut self) -> (r: Result<Option<Token>, LexError>)
        requires
            old(self).wf(),
        ensures
            final(self).wf(),
            final(self).matchers@ == old(self).matchers@,
            final(self).tokenizer.items@ == old(self).tokenizer.items@,
            final(self).tokenizer.snapshots@ == old(self).tokenizer.snapshots@,
            old(self).tokenizer.index >= old(self).tokenizer.items@.len() ==> {
                &&& final(self).tokenizer.index == old(self).tokenizer.index
                &&& old(self).matchers@.len() == 0 ==> r == Ok::<Option<Token>, LexError>(None)
                &&& old(self).matchers@.len() > 0 ==> match r {
                    Ok(Some(tok)) => tok.token_type == TokenType::EOF && tok.content@
                        == Seq::<char>::empty() && tok.position == (TokenPosition {
                        start: old(self).tokenizer.index,
                        end: old(self).tokenizer.index,
                    }),
                    _ => false,
                }
            },
            old(self).tokenizer.index < old(self).tokenizer.items@.len() ==> match chain_outcome(
                old(self).matchers@,
                old(self).tokenizer.items@,
                old(self).tokenizer.index as int,
            ) {
                MatchOutcome::NoMatch => r == Ok::<Option<Token>, LexError>(None)
                    && final(self).tokenizer.index == old(self).tokenizer.index,
                MatchOutcome::Matched { kind, text, end } => match r {
                    Ok(Some(tok)) => {
                        &&& tok.token_type == kind
                        &&& tok.content@ == text
                        &&& tok.position == (TokenPosition {
                            start: old(self).tokenizer.index,
                            end: end as usize,
                        })
                        &&& final(self).tokenizer.index == end
                    },
                    _ => false,
                },
                MatchOutcome::Failed { err, at } => match r {
                    Err(e) => e == (LexError {
                        kind: err,
                        position: TokenPosition { start: at as usize, end: at as usize },
                    }) && final(self).tokenizer.index == old(self).tokenizer.index,
                    _ => false,
                },
            },
    {
        let ghost ms = self.matchers@;
        let ghost s = self.tokenizer.items@;
        let ghost i0 = self.tokenizer.index as int;
        let mut mi: usize = 0;
        proof {
            assert(ms.skip(0) =~= ms);
        }
        while mi < self.matchers.len()
            invariant
                self.wf(),
                self.matchers@ == ms,
                ms == old(self).matchers@,
                self.tokenizer.items@ == s,
                s == old(self).tokenizer.items@,
                self.tokenizer.snapshots@ == old(self).tokenizer.snapshots@,
                self.tokenizer.index == old(self).tokenizer.index,
                i0 == old(self).tokenizer.index as int,
                0 <= mi <= ms.len(),
                mi > 0 ==> i0 < s.len(),
                i0 < s.len() ==> chain_outcome(ms, s, i0) == chain_outcome(
                    ms.skip(mi as int),
                    s,
                    i0,
                ),
            decreases ms.len() - mi,
        {
            proof {
                assert(ms.skip(mi as int)[0] == ms[mi as int]);
                assert(ms.skip(mi as int).drop_first() =~= ms.skip(mi + 1));
            }
            let res = self.tokenizer.try_match_token(&self.matchers[mi]);
            match res {
                Ok(Some(tok)) => {
                    return Ok(Some(tok));
                },
                Ok(None) => {},
                Err(e) => {
                    return Err(e);
                },
            }
            mi = mi + 1;
        }
        Ok(None)
    }

    /// Fetches the next deliverable token: whitespace tokens are skipped by
    /// an iterative loop, an `EOF` token ends the sequence as nothing, and
    /// malformed or unrecognized input is a typed error. On all-whitespace
    /// or empty remaining input this is an immediate end with no error.
    pub fn next(&mut self) -> (r: Result<Option<Token>, LexError>)
        requires
            old(self).wf(),
            all_productive(old(self).matchers@),
            old(self).matchers@.len() > 0,
        ensures
            final(self).wf(),
            final(self).matchers@ == old(self).matchers@,
            final(self).tokenizer.items@ == old(self).tokenizer.items@,
            final(self).tokenizer.snapshots@ == old(self).tokenizer.snapshots@,
            match next_outcome(
                old(self).matchers@,
                old(self).tokenizer.items@,
                old(self).tokenizer.index as int,
            ) {
                LexStep::Eof => r == Ok::<Option<Token>, LexError>(None),
                LexStep::Tok { kind, text, start, end } => match r {
                    Ok(Some(tok)) => {
                        &&& tok.token_type == kind
                        &&& tok.content@ == text
                        &&& tok.position == (TokenPosition {
                            start: start as usize,
                            end: end as usize,
                        })
                        &&& final(self).tokenizer.index == end
                    },
                    _ => false,
                },
                LexStep::Fail { err, at } => match r {
                    Err(e) => e == (LexError {
                        kind: err,
                        position: TokenPosition { start: at as usize, end: at as usize },
                    }),
                    _ => false,
                },
            },
    {
        let ghost ms = self.matchers@;
        let ghost s = self.tokenizer.items@;
        let ghost i0 = self.tokenizer.index as int;
        loop
            invariant
                self.wf(),
                self.matchers@ == ms,
                ms == old(self).matchers@,
                all_productive(ms),
                ms.len() > 0,
                self.tokenizer.items@ == s,
                s == old(self).tokenizer.items@,
                self.tokenizer.snapshots@ == old(self).tokenizer.snapshots@,
                i0 == old(self).tokenizer.index as int,
                i0 <= self.tokenizer.index <= s.len(),
                next_outcome(ms, s, i0) == next_outcome(ms, s, self.tokenizer.index as int),
            decreases s.len() - self.tokenizer.index,
        {
            let ghost i = self.tokenizer.index as int;
            proof {
                if i < s.len() {
                    lemma_chain_progress(ms, s, i);
                }
            }
            let token = match self.match_token() {
                Ok(Some(tok)) => tok,
                Ok(None) => {
                    let at = self.tokenizer.index();
                    return Err(LexError::new(
                        LexErrorKind::UnrecognizedCharacter,
                        TokenPosition::new(at, at),
                    ));
                },
                Err(e) => {
                    return Err(e);
                },
            };
            if *token.token_type() == TokenType::EOF {
                return Ok(None);
            }
            if *token.token_type() == TokenType::Whitespace {
                continue ;
            }
            return Ok(Some(token));
        }
    }
}

/// The operator table, ordered so that no operator precedes another
/// operator it is a prefix of.
pub open spec fn operator_table() -> Seq<Seq<char>> {
    seq![
        "=="@,
        "="@,
        "<<"@,
        "<="@,
        "<"@,
        ">>"@,
        ">="@,
        ">"@,
        "~"@,
        "!"@,
        "&&"@,
        "&"@,
        "^"@,
        "||"@,
        "|"@,
        "%"@,
        ":"@,
        "+"@,
        "-"@,
        "*"@,
        "/"@,
    ]
}

/// The symbol table.
pub open spec fn symbol_table() -> Seq<Seq<char>> {
    seq!["("@, ")"@]
}

/// Whether `m` is a constant matcher of `kind` over exactly the given table.
pub open spec fn is_constant_with(m: Matcher, kind: TokenType, table: Seq<Seq<char>>) -> bool {
    match m {
        Matcher::Constant(cm) => cm.token_type == kind && cm.constants@.map_values(|w: String| w@)
            == table,
        _ => false,
    }
}

/// The chain a standard lexer runs, in order: whitespace, numeric literals,
/// string and char literals, identifiers, then the fixed operator and
/// symbol tables.
pub open spec fn standard_chain(ms: Seq<Matcher>) -> bool {
    &&& ms.len() == 7
    &&& ms[0] == Matcher::Whitespace(WhitespaceMatcher {  })
    &&& ms[1] == Matcher::FloatLiteral(FloatLiteralMatcher {  })
    &&& ms[2] == Matcher::IntLiteral(IntLiteralMatcher {  })
    &&& ms[3] == Matcher::StringLiteral(StringLiteralMatcher {  })
    &&& ms[4] == Matcher::Identifier(IdentifierMatcher {  })
    &&& is_constant_with(ms[5], TokenType::Operator, operator_table())
    &&& is_constant_with(ms[6], TokenType::Symbol, symbol_table())
}

/// Builds the standard lexer over `data`: the full matcher chain, with the
/// fixed operator and symbol tables passed in as configuration data.
pub fn grab_smaragdine_lexer(data: &str) -> (r: Lexer)
    ensures
        r.wf(),
        r.tokenizer.items@ == data@,
        r.tokenizer.index == 0,
        r.tokenizer.snapshots@.len() == 0,
        standard_chain(r.matchers@),
        all_productive(r.matchers@),
{
    let tokenizer = Tokenizer::new(data);
    let mut lexer = Lexer::new(tokenizer);

    let mut symbols: Vec<String> = Vec::new();
    symbols.push(String::from_str("("));
    symbols.push(String::from_str(")"));

    let mut operators: Vec<String> = Vec::new();
    operators.push(String::from_str("=="));
    operators.push(String::from_str("="));
    operators.push(String::from_str("<<"));
    operators.push(String::from_str("<="));
    operators.push(String::from_str("<"));
    operators.push(String::from_str(">>"));
    operators.push(String::from_str(">="));
    operators.push(String::from_str(">"));
    operators.push(String::from_str("~"));
    operators.push(String::from_str("!"));
    operators.push(String::from_str("&&"));
    operators.push(String::from_str("&"));
    operators.push(String::from_str("^"));
    operators.push(String::from_str("||"));
    operators.push(String::from_str("|"));
    operators.push(String::from_str("%"));
    operators.push(String::from_str(":"));
    operators.push(String::from_str("+"));
    operators.push(String::from_str("-"));
    operators.push(String::from_str("*"));
    operators.push(String::from_str("/"));

    proof {
        assert(operators@.map_values(|w: String| w@) =~= operator_table());
        assert(symbols@.map_values(|w: String| w@) =~= symbol_table());
    }

    let matcher_symbol = ConstantMatcher::new(TokenType::Symbol, symbols);
    let matcher_operator = ConstantMatcher::new(TokenType::Operator, operators);

    let ms = lexer.matchers_mut();
    ms.push(Matcher::Whitespace(WhitespaceMatcher {  }));
    ms.push(Matcher::FloatLiteral(FloatLiteralMatcher {  }));
    ms.push(Matcher::IntLiteral(IntLiteralMatcher {  }));
    ms.push(Matcher::StringLiteral(StringLiteralMatcher {  }));
    ms.push(Matcher::Identifier(IdentifierMatcher {  }));
    ms.push(Matcher::Constant(matcher_operator));
    ms.push(Matcher::Constant(matcher_symbol));

    proof {
        reveal_strlit("(");
        reveal_strlit(")");
        reveal_strlit("==");
        reveal_strlit("=");
        reveal_strlit("<<");
        reveal_strlit("<=");
        reveal_strlit("<");
        reveal_strlit(">>");
        reveal_strlit(">=");
        reveal_strlit(">");
        reveal_strlit("~");
        reveal_strlit("!");
        reveal_strlit("&&");
        reveal_strlit("&");
        reveal_strlit("^");
        reveal_strlit("||");
        reveal_strlit("|");
        reveal_strlit("%");
        reveal_strlit(":");
        reveal_strlit("+");
        reveal_strlit("-");
        reveal_strlit("*");
        reveal_strlit("/");
        assert(all_productive(lexer.matchers@)) by {
            assert(forall|k: int|
                0 <= k < operator_table().len() ==> (#[trigger] operator_table()[k]).len() > 0);
            assert(forall|k: int|
                0 <= k < symbol_table().len() ==> (#[trigger] symbol_table()[k]).len() > 0);
        }
    }
    lexer
}

/// What the standard chain does at position `i`: the matchers of
/// [`standard_chain`], tried in their fixed order.
pub open spec fn std_chain_outcome(s: Seq<char>, i: int) -> MatchOutcome {
    match whitespace_outcome(s, i) {
        MatchOutcome::NoMatch => match float_outcome(s, i) {
            MatchOutcome::NoMatch => match int_outcome(s, i) {
                MatchOutcome::NoMatch => match string_outcome(s, i) {
                    MatchOutcome::NoMatch => match ident_outcome(s, i) {
                        MatchOutcome::NoMatch => match constants_outcome(
                            operator_table(),
                            TokenType::Operator,
                            s,
                            i,
                        ) {
                            MatchOutcome::NoMatch => constants_outcome(
                                symbol_table(),
                                TokenType::Symbol,
                                s,
                                i,
                            ),
                            other => other,
                        },
                        other => other,
                    },
                    other => other,
                },
                other => other,
            },
            other => other,
        },
        other => other,
    }
}

/// Every word of the fixed operator and symbol tables is non-empty.
pub proof fn lemma_tables_productive()
    ensures
        forall|k: int| 0 <= k < operator_table().len() ==> (#[trigger] operator_table()[k]).len()
            > 0,
        forall|k: int| 0 <= k < symbol_table().len() ==> (#[trigger] symbol_table()[k]).len() > 0,
{
    reveal_strlit("(");
    reveal_strlit(")");
    reveal_strlit("==");
    reveal_strlit("=");
    reveal_strlit("<<");
    reveal_strlit("<=");
    reveal_strlit("<");
    reveal_strlit(">>");
    reveal_strlit(">=");
    reveal_strlit(">");
    reveal_strlit("~");
    reveal_strlit("!");
    reveal_strlit("&&");
    reveal_strlit("&");
    reveal_strlit("^");
    reveal_strlit("||");
    reveal_strlit("|");
    reveal_strlit("%");
    reveal_strlit(":");
    reveal_strlit("+");
    reveal_strlit("-");
    reveal_strlit("*");
    reveal_strlit("/");
}

/// The fixed operator and symbol tables respect the ordering contract: no
/// word of either table is preceded by a proper prefix of it, so the first
/// match in table order is never a truncation of a longer word.
pub proof fn lemma_tables_prefix_ordered()
    ensures
        crate::matcher::prefix_ordered(operator_table()),
        crate::matcher::prefix_ordered(symbol_table()),
{
    reveal_strlit("(");
    reveal_strlit(")");
    reveal_strlit("==");
    reveal_strlit("=");
    reveal_strlit("<<");
    reveal_strlit("<=");
    reveal_strlit("<");
    reveal_strlit(">>");
    reveal_strlit(">=");
    reveal_strlit(">");
    reveal_strlit("~");
    reveal_strlit("!");
    reveal_strlit("&&");
    reveal_strlit("&");
    reveal_strlit("^");
    reveal_strlit("||");
    reveal_strlit("|");
    reveal_strlit("%");
    reveal_strlit(":");
    reveal_strlit("+");
    reveal_strlit("-");
    reveal_strlit("*");
    reveal_strlit("/");
    assert forall|i: int, j: int|
        0 <= i < j < operator_table().len() implies !crate::matcher::is_proper_prefix(
        #[trigger] operator_table()[i],
        #[trigger] operator_table()[j],
    ) by {
        let a = operator_table()[i];
        let b = operator_table()[j];
        assert(("=="@).len() == 2 && ("=="@)[0] == '=');
        assert(("="@).len() == 1 && ("="@)[0] == '=');
        assert(("<<"@).len() == 2 && ("<<"@)[0] == '<');
        assert(("<="@).len() == 2 && ("<="@)[0] == '<');
        assert(("<"@).len() == 1 && ("<"@)[0] == '<');
        assert((">>"@).len() == 2 && (">>"@)[0] == '>');
        assert((">="@).len() == 2 && (">="@)[0] == '>');
        assert((">"@).len() == 1 && (">"@)[0] == '>');
        assert(("~"@).len() == 1);
        assert(("!"@).len() == 1);
        assert(("&&"@).len() == 2 && ("&&"@)[0] == '&');
        assert(("&"@).len() == 1 && ("&"@)[0] == '&');
        assert(("^"@).len() == 1);
        assert(("||"@).len() == 2 && ("||"@)[0] == '|');
        assert(("|"@).len() == 1 && ("|"@)[0] == '|');
        assert(("%"@).len() == 1);
        assert((":"@).len() == 1);
        assert(("+"@).len() == 1);
        assert(("-"@).len() == 1);
        assert(("*"@).len() == 1);
        assert(("/"@).len() == 1);
        if a.len() < b.len() {
            assert(a.len() == 1 && b.len() == 2);
            assert(a[0] != b[0]);
            assert(b.take(1)[0] == b[0]);
            assert(a != b.take(1));
        }
        assert(!crate::matcher::is_proper_prefix(a, b));
    }
}

/// The standard chain's outcome stays inside the buffer.
pub proof fn lemma_std_chain_outcome_bounds(s: Seq<char>, i: int)
    requires
        0 <= i <= s.len(),
    ensures
        outcome_in_bounds(std_chain_outcome(s, i), s, i),
{
    lemma_whitespace_outcome_bounds(s, i);
    lemma_float_outcome_bounds(s, i);
    lemma_int_outcome_bounds(s, i);
    lemma_string_outcome_bounds(s, i);
    lemma_ident_outcome_bounds(s, i);
    lemma_tables_productive();
    lemma_constants_progress(operator_table(), TokenType::Operator, s, i);
    lemma_constants_progress(symbol_table(), TokenType::Symbol, s, i);
}

pub proof fn lemma_standard_chain_outcome(ms: Seq<Matcher>, s: Seq<char>, i: int)
    requires
        standard_chain(ms),
    ensures
        chain_outcome(ms, s, i) == std_chain_outcome(s, i),
{
    reveal_with_fuel(chain_outcome, 9);
    assert(ms.skip(0) =~= ms);
    assert(ms.skip(0).drop_first() =~= ms.skip(1));
    assert(ms.skip(1).drop_first() =~= ms.skip(2));
    assert(ms.skip(2).drop_first() =~= ms.skip(3));
    assert(ms.skip(3).drop_first() =~= ms.skip(4));
    assert(ms.skip(4).drop_first() =~= ms.skip(5));
    assert(ms.skip(5).drop_first() =~= ms.skip(6));
    assert(ms.skip(6).drop_first() =~= ms.skip(7));
    assert(ms.skip(7).len() == 0);
    assert(ms.skip(1)[0] == ms[1]);
    assert(ms.skip(2)[0] == ms[2]);
    assert(ms.skip(3)[0] == ms[3]);
    assert(ms.skip(4)[0] == ms[4]);
    assert(ms.skip(5)[0] == ms[5]);
    assert(ms.skip(6)[0] == ms[6]);
}

/// What repeated matching with the standard chain delivers next.
pub open spec fn std_next_outcome(s: Seq<char>, i: int) -> LexStep
    decreases s.len() - i,
{
    if i >= s.len() {
        LexStep::Eof
    } else {
        match std_chain_outcome(s, i) {
            MatchOutcome::NoMatch => LexStep::Fail {
                err: LexErrorKind::UnrecognizedCharacter,
                at: i,
            },
            MatchOutcome::Failed { err, at } => LexStep::Fail { err, at },
            MatchOutcome::Matched { kind, text, end } => {
                if kind == TokenType::Whitespace {
                    if i < end <= s.len() {
                        std_next_outcome(s, end)
                    } else {
                        LexStep::Fail { err: LexErrorKind::UnrecognizedCharacter, at: i }
                    }
                } else if kind == TokenType::EOF {
                    LexStep::Eof
                } else {
                    LexStep::Tok { kind, text, start: i, end }
                }
            },
        }
    }
}

pub proof fn lemma_standard_next_outcome(ms: Seq<Matcher>, s: Seq<char>, i: int)
    requires
        standard_chain(ms),
        0 <= i <= s.len(),
    ensures
        next_outcome(ms, s, i) == std_next_outcome(s, i),
    decreases s.len() - i,
{
    lemma_standard_chain_outcome(ms, s, i);
    if i < s.len() {
        match std_chain_outcome(s, i) {
            MatchOutcome::Matched { kind, text, end } => {
                if kind == TokenType::Whitespace && i < end <= s.len() {
                    lemma_standard_next_outcome(ms, s, end);
                }
            },
            _ => {},
        }
    }
}

/// The token sequence the standard chain delivers from position `i` to the
/// end of input, or the failure that stops it.
pub open spec fn std_lex_seq(s: Seq<char>, i: int) -> Result<Seq<SpecToken>, (LexErrorKind, int)>
    decreases s.len() - i,
{
    match std_next_outcome(s, i) {
        LexStep::Eof => Ok(Seq::empty()),
        LexStep::Fail { err, at } => Err((err, at)),
        LexStep::Tok { kind, text, start, end } => {
            if i < end <= s.len() {
                match std_lex_seq(s, end) {
                    Ok(rest) => Ok(seq![SpecToken { kind, text, start, end }] + rest),
                    err => err,
                }
            } else {
                Ok(Seq::empty())
            }
        },
    }
}

/// Tokens already delivered, seen from midway through a lexing pass.
pub open spec fn lex_extend(
    prefix: Seq<SpecToken>,
    r: Result<Seq<SpecToken>, (LexErrorKind, int)>,
) -> Result<Seq<SpecToken>, (LexErrorKind, int)> {
    match r {
        Ok(rest) => Ok(prefix + rest),
        err => err,
    }
}

/// A deliverable token spans forward from inside the input, and a failure
/// points inside the input.
pub proof fn lemma_std_next_outcome_bounds(s: Seq<char>, i: int)
    requires
        0 <= i <= s.len(),
    ensures
        match std_next_outcome(s, i) {
            LexStep::Tok { kind, text, start, end } => i <= start < end <= s.len(),
            LexStep::Fail { err, at } => 0 <= at <= s.len(),
            LexStep::Eof => true,
        },
    decreases s.len() - i,
{
    if i < s.len() {
        lemma_std_chain_outcome_bounds(s, i);
        match std_chain_outcome(s, i) {
            MatchOutcome::Matched { kind, text, end } => {
                if kind == TokenType::Whitespace && i < end <= s.len() {
                    lemma_std_next_outcome_bounds(s, end);
                }
            },
            _ => {},
        }
    }
}

/// Lexes one line-sized piece of text to exhaustion with the standard
/// chain, collecting the tokens up to end of input, or stopping at the
/// first failure.
pub fn lex_line(line: &str) -> (r: Result<Vec<Token>, LexError>)
    ensures
        match r {
            Ok(ts) => std_lex_seq(line@, 0) == Ok::<_, (LexErrorKind, int)>(
                ts@.map_values(|t: Token| crate::token::token_model(t)),
            ),
            Err(e) => {
                &&& std_lex_seq(line@, 0) == Err::<Seq<SpecToken>, _>(
                    (e.kind, e.position.start as int),
                )
                &&& e.position.end == e.position.start
            },
        },
{
    let mut lexer = grab_smaragdine_lexer(line);
    let ghost s = line@;
    let ghost ms = lexer.matchers@;
    let mut out: Vec<Token> = Vec::new();
    proof {
        assert(out@.map_values(|t: Token| crate::token::token_model(t)) =~= Seq::<
            SpecToken,
        >::empty());
    }
    loop
        invariant
            lexer.wf(),
            lexer.matchers@ == ms,
            standard_chain(ms),
            all_productive(ms),
            lexer.tokenizer.items@ == s,
            s == line@,
            0 <= lexer.tokenizer.index <= s.len(),
            std_lex_seq(s, 0) == lex_extend(
                out@.map_values(|t: Token| crate::token::token_model(t)),
                std_lex_seq(s, lexer.tokenizer.index as int),
            ),
        decreases s.len() - lexer.tokenizer.index,
    {
        let ghost i = lexer.tokenizer.index as int;
        let ghost prefix = out@.map_values(|t: Token| crate::token::token_model(t));
        proof {
            lemma_standard_next_outcome(ms, s, i);
            lemma_std_next_outcome_bounds(s, i);
        }
        match lexer.next() {
            Ok(None) => {
                proof {
                    assert(std_lex_seq(s, i) == Ok::<_, (LexErrorKind, int)>(
                        Seq::<SpecToken>::empty(),
                    ));
                    assert(prefix + Seq::<SpecToken>::empty() =~= prefix);
                }
                return Ok(out);
            },
            Ok(Some(tok)) => {
                let ghost m = std_next_outcome(s, i);
                out.push(tok);
                proof {
                    match m {
                        LexStep::Tok { kind, text, start, end } => {
                            let md = SpecToken { kind, text, start, end };
                            assert(crate::token::token_model(tok) == md);
                            assert(out@.map_values(|t: Token| crate::token::token_model(t))
                                =~= prefix + seq![md]);
                            match std_lex_seq(s, end) {
                                Ok(rest) => {
                                    assert(std_lex_seq(s, i) == Ok::<_, (LexErrorKind, int)>(
                                        seq![md] + rest,
                                    ));
                                    assert(prefix + (seq![md] + rest) =~= (prefix + seq![md])
                                        + rest);
                                },
                                Err(pp) => {
                                    assert(std_lex_seq(s, i) == Err::<Seq<SpecToken>, _>(pp));
                                },
                            }
                        },
                        _ => {
                            assert(false);
                        },
                    }
                }
            },
            Err(e) => {
                return Err(e);
            },
        }
    }
}

/// All-whitespace or empty remaining input lexes to an immediate end of
/// input, with no error and no token, under any chain that begins with the
/// whitespace matcher.
pub proof fn lemma_all_whitespace_is_eof(ms: Seq<Matcher>, s: Seq<char>, i: int)
    requires
        0 <= i <= s.len(),
        forall|j: int| i <= j < s.len() ==> is_space(#[trigger] s[j]),
        ms.len() > 0,
        ms[0] == Matcher::Whitespace(WhitespaceMatcher {  }),
    ensures
        next_outcome(ms, s, i) == LexStep::Eof,
{
    if i < s.len() {
        crate::matcher::lemma_run_end_all(s, i, CharClass::Space);
        assert(matcher_outcome(ms[0], s, i) == (MatchOutcome::Matched {
            kind: TokenType::Whitespace,
            text: Seq::<char>::empty(),
            end: s.len() as int,
        }));
        assert(next_outcome(ms, s, s.len() as int) == LexStep::Eof);
    }
}

} // verus!
