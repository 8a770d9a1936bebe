//! The token cursor a downstream node builder reads from: an indexable
//! sequence of tokens with lookahead and a LIFO stack of backtracking
//! snapshots, mirroring the character stream one level up.

use vstd::prelude::*;
use crate::token::Token;

verus! {

/// A saved cursor position enabling backtracking after a failed match
/// attempt.
pub struct Snapshot {
    pub index: usize,
}

impl Snapshot {
    pub fn new(index: usize) -> (r: Snapshot)
        ensures
            r.index == index,
    {
        Snapshot { index }
    }

    pub fn index(&self) -> (r: usize)
        ensures
            r == self.index,
    {
        self.index
    }
}

/// The token stream.
pub struct Nodizer {
    pub index: usize,
    pub items: Vec<Token>,
    pub snapshots: Vec<Snapshot>,
}

impl Nodizer {
    /// The cursor and every saved snapshot stay inside the buffer.
    pub open spec fn wf(&self) -> bool {
        self.index <= self.items@.len() && forall|k: int|
            0 <= k < self.snapshots@.len() ==> (#[trigger] self.snapshots@[k]).index
                <= self.items@.len()
    }

    pub fn new(items: Vec<Token>) -> (r: Nodizer)
        ensures
            r.items == items,
            r.index == 0,
            r.snapshots@.len() == 0,
            r.wf(),
    {
        Nodizer { index: 0, items, snapshots: Vec::new() }
    }

    pub fn end(&self) -> (r: bool)
        ensures
            r == (self.index >= self.items@.len()),
    {
        self.index >= self.items.len()
    }

    pub fn end_n(&self, lookahead: usize) -> (r: bool)
        requires
            self.index + lookahead <= usize::MAX,
        ensures
            r == (self.index + lookahead >= self.items@.len()),
    {
        self.index + lookahead >= self.items.len()
    }

    pub fn peek(&self) -> (r: Option<&Token>)
        ensures
            match r {
                Some(t) => self.index < self.items@.len() && *t == self.items@[self.index as int],
                None => self.index >= self.items@.len(),
            },
    {
        self.peek_n(0)
    }

    pub fn peek_n(&self, n: usize) -> (r: Option<&Token>)
        requires
            self.index + n <= usize::MAX,
        ensures
            match r {
                Some(t) => self.index + n < self.items@.len() && *t == self.items@[self.index
                    + n],
                None => self.index + n >= self.items@.len(),
            },
    {
        if self.end_n(n) {
            return None;
        }
        Some(&self.items[self.index + n])
    }

    pub fn read(&mut self) -> (r: Option<&Token>)
        ensures
            final(self).items == old(self).items,
            final(self).snapshots == old(self).snapshots,
            match r {
                Some(t) => old(self).index < old(self).items@.len() && *t == old(self).items@[old(
                    self,
                ).index as int] && final(self).index == old(self).index + 1,
                None => old(self).index >= old(self).items@.len() && final(self).index == old(
                    self,
                ).index,
            },
    {
        if self.index >= self.items.len() {
            return None;
        }
        let i = self.index;
        self.index = i + 1;
        Some(&self.items[i])
    }

    /// Skips `a` tokens unconditionally.
    pub fn advance(&mut self, a: usize)
        requires
            old(self).index + a <= old(self).items@.len(),
        ensures
            final(self).index == old(self).index + a,
            final(self).items == old(self).items,
            final(self).snapshots == old(self).snapshots,
    {
        let n = self.items.len();
        assert(self.index + a <= n);
        self.index = self.index + a;
    }

    pub fn take_snapshot(&mut self)
        ensures
            final(self).index == old(self).index,
            final(self).items == old(self).items,
            final(self).snapshots@ == old(self).snapshots@.push(
                Snapshot { index: old(self).index },
            ),
    {
        self.snapshots.push(Snapshot::new(self.index));
    }

    pub fn peek_snapshot(&self) -> (r: Option<&Snapshot>)
        ensures
            match r {
                Some(s) => self.snapshots@.len() > 0 && *s == self.snapshots@.last(),
                None => self.snapshots@.len() == 0,
            },
    {
        self.snapshots.last()
    }

    /// Pops the most recent snapshot and restores the position it saved.
    pub fn rollback_snapshot(&mut self)
        requires
            old(self).snapshots@.len() > 0,
        ensures
            final(self).index == old(self).snapshots@.last().index,
            final(self).items == old(self).items,
            final(self).snapshots@ == old(self).snapshots@.drop_last(),
    {
        let s = self.snapshots.pop().unwrap();
        self.index = s.index();
    }

    /// Discards the most recent snapshot, keeping the current position.
    pub fn commit_snapshot(&mut self)
        ensures
            final(self).index == old(self).index,
            final(self).items == old(self).items,
            old(self).snapshots@.len() > 0 ==> final(self).snapshots@ == old(
                self,
            ).snapshots@.drop_last(),
            old(self).snapshots@.len() == 0 ==> final(self).snapshots@ == old(self).snapshots@,
    {
        let _ = self.snapshots.pop();
    }

    pub fn index(&self) -> (r: usize)
        ensures
            r == self.index,
    {
        self.index
    }
}

} // verus!
