//! The character stream: owns the input as an indexable sequence of
//! characters and supports cursor-based reading, lookahead, and a LIFO stack
//! of backtracking snapshots.

use vstd::prelude::*;
use crate::chars::chars_of;
use crate::error::LexError;
use crate::matcher::{match_step, matcher_outcome, MatchOutcome, Matcher};
use crate::token::{Token, TokenPosition, TokenType};

verus! {

/// A saved stream position enabling backtracking after a failed match
/// attempt.
#[derive(Clone, Copy, Debug)]
pub struct Snapshot {
    pub index: usize,
}

impl Snapshot {
    pub fn new(index: usize) -> (r: Snapshot)
        ensures
            r.index == index,
    {
        Snapshot { index }
    }

    pub fn index(&self) -> (r: usize)
        ensures
            r == self.index,
    {
        self.index
    }
}

/// The character stream. The buffer itself is never mutated during scanning;
/// the position is a plain offset into it, and snapshot, commit and rollback
/// save and restore that offset through a strict stack.
#[derive(Clone, Debug)]
pub struct Tokenizer {
    pub index: usize,
    pub items: Vec<char>,
    pub snapshots: Vec<Snapshot>,
}

impl Tokenizer {
    /// The cursor and every saved snapshot stay inside the buffer.
    pub open spec fn wf(&self) -> bool {
        self.index <= self.items@.len() && forall|k: int|
            0 <= k < self.snapshots@.len() ==> (#[trigger] self.snapshots@[k]).index
                <= self.items@.len()
    }

    pub fn new(source: &str) -> (t: Tokenizer)
        ensures
            t.items@ == source@,
            t.index == 0,
            t.snapshots@.len() == 0,
            t.wf(),
    {
        Tokenizer { index: 0, items: chars_of(source), snapshots: Vec::new() }
    }

    pub fn end(&self) -> (r: bool)
        ensures
            r == (self.index >= self.items@.len()),
    {
        self.index >= self.items.len()
    }

    pub fn peek(&self) -> (r: Option<char>)
        ensures
            match r {
                Some(c) => self.index < self.items@.len() && c == self.items@[self.index as int],
                None => self.index >= self.items@.len(),
            },
    {
        if self.end() {
            return None;
        }
        Some(self.items[self.index])
    }

    /// Non-consuming lookahead `n` positions past the cursor.
    pub fn peek_n(&self, n: usize) -> (r: Option<char>)
        requires
            self.index + n <= usize::MAX,
        ensures
            match r {
                Some(c) => self.index + n < self.items@.len() && c == self.items@[self.index
                    + n],
                None => self.index + n >= self.items@.len(),
            },
    {
        if self.index + n >= self.items.len() {
            return None;
        }
        Some(self.items[self.index + n])
    }

    pub fn read(&mut self) -> (r: Option<char>)
        ensures
            final(self).items == old(self).items,
            final(self).snapshots == old(self).snapshots,
            match r {
                Some(c) => old(self).index < old(self).items@.len() && c == old(self).items@[old(
                    self,
                ).index as int] && final(self).index == old(self).index + 1,
                None => old(self).index >= old(self).items@.len() && final(self).index == old(
                    self,
                ).index,
            },
    {
        if self.index >= self.items.len() {
            return None;
        }
        let c = self.items[self.index];
        self.index = self.index + 1;
        Some(c)
    }

    /// Skips `a` characters unconditionally; used after a matcher has
    /// already confirmed a fixed-length prefix.
    pub fn advance(&mut self, a: usize)
        requires
            old(self).index + a <= old(self).items@.len(),
        ensures
            final(self).index == old(self).index + a,
            final(self).items == old(self).items,
            final(self).snapshots == old(self).snapshots,
    {
        let n = self.items.len();
        assert(self.index + a <= n);
        self.index = self.index + a;
    }

    pub fn take_snapshot(&mut self)
        ensures
            final(self).index == old(self).index,
            final(self).items == old(self).items,
            final(self).snapshots@ == old(self).snapshots@.push(
                Snapshot { index: old(self).index },
            ),
    {
        self.snapshots.push(Snapshot::new(self.index));
    }

    /// Pops the most recent snapshot and restores the position it saved.
    pub fn rollback_snapshot(&mut self)
        requires
            old(self).snapshots@.len() > 0,
        ensures
            final(self).index == old(self).snapshots@.last().index,
            final(self).items == old(self).items,
            final(self).snapshots@ == old(self).snapshots@.drop_last(),
    {
        let s = self.snapshots.pop().unwrap();
        self.index = s.index();
    }

    /// Discards the most recent snapshot, keeping the current position.
    pub fn commit_snapshot(&mut self)
        ensures
            final(self).index == old(self).index,
            final(self).items == old(self).items,
            old(self).snapshots@.len() > 0 ==> final(self).snapshots@ == old(
                self,
            ).snapshots@.drop_last(),
            old(self).snapshots@.len() == 0 ==> final(self).snapshots@ == old(self).snapshots@,
    {
        let _ = self.snapshots.pop();
    }

    pub fn index(&self) -> (r: usize)
        ensures
            r == self.index,
    {
        self.index
    }

    /// Tries one matcher at the current position under the backtracking
    /// discipline: at end of input an `EOF` token is synthesized without
    /// invoking the matcher; otherwise a snapshot is taken, a success is
    /// committed (keeping the consumed characters) and a decline or a
    /// failure is rolled back, so a matcher can never partially consume
    /// input without producing a token.
    pub fn try_match_token(&mut self, matcher: &Matcher) -> (r: Result<Option<Token>, LexError>)
        requires
            old(self).wf(),
        ensures
            final(self).wf(),
            final(self).items@ == old(self).items@,
            final(self).snapshots@ == old(self).snapshots@,
            old(self).index >= old(self).items@.len() ==> {
                &&& final(self).index == old(self).index
                &&& match r {
                    Ok(Some(tok)) => tok.token_type == TokenType::EOF && tok.content@
                        == Seq::<char>::empty() && tok.position == (TokenPosition {
                        start: old(self).index,
                        end: old(self).index,
                    }),
                    _ => false,
                }
            },
            old(self).index < old(self).items@.len() ==> {
                &&& match_step(
                    *old(self),
                    *final(self),
                    r,
                    matcher_outcome(*matcher, old(self).items@, old(self).index as int),
                )
                &&& !(matcher_outcome(*matcher, old(self).items@, old(self).index as int)
                    is Matched) ==> final(self).index == old(self).index
            },
    {
        if self.end() {
            return Ok(
                Some(
                    Token::new(
                        TokenType::EOF,
                        TokenPosition::new(self.index, self.index),
                        String::new(),
                    ),
                ),
            );
        }
        self.take_snapshot();
        let res = matcher.try_match(self);
        match res {
            Ok(Some(tok)) => {
                self.commit_snapshot();
                proof {
                    assert(self.snapshots@ =~= old(self).snapshots@);
                }
                Ok(Some(tok))
            },
            Ok(None) => {
                self.rollback_snapshot();
                proof {
                    assert(self.snapshots@ =~= old(self).snapshots@);
                }
                Ok(None)
            },
            Err(e) => {
                self.rollback_snapshot();
                proof {
                    assert(self.snapshots@ =~= old(self).snapshots@);
                }
                Err(e)
            },
        }
    }
}

} // verus!
