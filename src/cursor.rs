//! Positions in a buffer as (chunk, offset) pairs, for reading it as a
//! stream without changing its chunk list.
use vstd::prelude::*;

use crate::buffer::Buffer;
use crate::flat::{lemma_chunk_in_flatten, prefix_len};

verus! {

/// A read position: `offset` bytes into chunk `chunk`. The canonical
/// positions of a buffer with `N` chunks are the interior ones, where
/// `offset` is inside chunk `chunk`, and the one at-end pair `(N, 0)`.
#[derive(Clone, Copy, Debug, PartialEq, Eq, Structural)]
pub struct Cursor {
    pub chunk: usize,
    pub offset: usize,
}

impl Buffer {
    /// `c` is a canonical position of this buffer.
    pub open spec fn is_cursor(&self, c: Cursor) -> bool {
        ||| (c.chunk == self.chunks().len() && c.offset == 0)
        ||| (c.chunk < self.chunks().len() && c.offset < self.chunks()[c.chunk as int].len())
    }

    /// The absolute byte position that `c` stands for.
    pub open spec fn cursor_pos(&self, c: Cursor) -> nat {
        prefix_len(self.chunks(), c.chunk as int) + c.offset as nat
    }

    /// `c` is the at-end state.
    pub open spec fn cursor_at_end(&self, c: Cursor) -> bool {
        c.chunk == self.chunks().len() && c.offset == 0
    }

    /// The canonical cursor for `min(pos, len)`: found by adding up chunk
    /// lengths until the chunk that holds `pos`; a position at or past the
    /// end gives the at-end state, never an error.
    pub fn seek_to(&self, pos: usize) -> (c: Cursor)
        ensures
            self.is_cursor(c),
            self.cursor_pos(c) == if pos < self@.len() {
                pos as nat
            } else {
                self@.len()
            },
            pos >= self@.len() ==> self.cursor_at_end(c),
    {
        let ghost cs = self.chunks();
        let n = self.chunk_count();
        let len = self.len();
        let mut k: usize = 0;
        let mut offset: usize = 0;
        while k < n
            invariant
                k <= n,
                n == cs.len(),
                cs == self.chunks(),
                len == cs.flatten().len(),
                offset == prefix_len(cs, k as int),
                offset <= pos,
                offset <= len,
            decreases n - k,
        {
            proof {
                lemma_chunk_in_flatten(cs, k as int);
            }
            let l = self.chunk_len(k);
            if pos - offset < l {
                return Cursor { chunk: k, offset: pos - offset };
            }
            offset = offset + l;
            k = k + 1;
        }
        assert(cs.take(n as int) =~= cs);
        Cursor { chunk: n, offset: 0 }
    }

    /// The absolute byte position of `c`.
    pub fn position(&self, c: Cursor) -> (r: usize)
        requires
            self.is_cursor(c),
        ensures
            r == self.cursor_pos(c),
            r <= self@.len(),
    {
        let ghost cs = self.chunks();
        let len = self.len();
        let mut k: usize = 0;
        let mut offset: usize = 0;
        while k < c.chunk
            invariant
                k <= c.chunk <= cs.len(),
                cs == self.chunks(),
                len == cs.flatten().len(),
                offset == prefix_len(cs, k as int),
                offset <= len,
            decreases c.chunk - k,
        {
            proof {
                lemma_chunk_in_flatten(cs, k as int);
            }
            offset = offset + self.chunk_len(k);
            k = k + 1;
        }
        proof {
            if c.chunk < cs.len() {
                lemma_chunk_in_flatten(cs, c.chunk as int);
            } else {
                assert(cs.take(cs.len() as int) =~= cs);
            }
        }
        offset + c.offset
    }

    /// The bytes left from `c` to the end.
    pub fn remaining(&self, c: Cursor) -> (r: usize)
        requires
            self.is_cursor(c),
        ensures
            r == self@.len() - self.cursor_pos(c),
    {
        self.len() - self.position(c)
    }

    /// Moves `c` by `delta` bytes, forward or back, stopping at the start and
    /// at the end instead of failing.
    pub fn seek_relative(&self, c: Cursor, delta: isize) -> (r: Cursor)
        requires
            self.is_cursor(c),
        ensures
            self.is_cursor(r),
            self.cursor_pos(r) == if self.cursor_pos(c) + delta <= 0 {
                0
            } else if self.cursor_pos(c) + delta >= self@.len() {
                self@.len() as int
            } else {
                self.cursor_pos(c) + delta
            },
    {
        let len = self.len();
        let pos = self.position(c);
        let target: i128 = pos as i128 + delta as i128;
        if target <= 0 {
            self.seek_to(0)
        } else if target >= len as i128 {
            self.seek_to(len)
        } else {
            self.seek_to(target as usize)
        }
    }

    /// Moves `c` forward by `count` bytes; past the end it stops at the
    /// at-end state.
    pub fn advance_cursor(&self, c: Cursor, count: usize) -> (r: Cursor)
        requires
            self.is_cursor(c),
        ensures
            self.is_cursor(r),
            self.cursor_pos(r) == if self.cursor_pos(c) + count >= self@.len() {
                self@.len() as int
            } else {
                self.cursor_pos(c) + count
            },
            self.cursor_pos(c) + count >= self@.len() ==> self.cursor_at_end(r),
    {
        let len = self.len();
        let pos = self.position(c);
        if count >= len - pos {
            self.seek_to(len)
        } else {
            self.seek_to(pos + count)
        }
    }
}

/// A canonical cursor at the last byte position is the at-end state, so a
/// cursor sought or advanced to the end, once or many times, is always
/// `(N, 0)` with nothing left to read.
pub proof fn law_end_is_at_end(b: &Buffer, c: Cursor)
    requires
        b.is_cursor(c),
        b.cursor_pos(c) >= b@.len(),
    ensures
        b.cursor_at_end(c),
        b.cursor_pos(c) == b@.len(),
{
    let cs = b.chunks();
    if c.chunk < cs.len() {
        lemma_chunk_in_flatten(cs, c.chunk as int);
    } else {
        assert(cs.take(cs.len() as int) =~= cs);
    }
}

} // verus!
