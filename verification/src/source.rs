//! The input as a cursor over bytes, and the reading of whole lines from it.

use vstd::prelude::*;

verus! {

/// The byte that ends a line.
pub const LINE_END: u8 = 10;

/// The position just after the line that starts at `pos`: behind the first
/// line terminator at or after `pos`, or the end of `s` where there is none.
pub open spec fn line_end(s: Seq<u8>, pos: int) -> int
    decreases s.len() - pos,
{
    if pos < 0 || pos >= s.len() {
        s.len() as int
    } else if s[pos] == LINE_END {
        pos + 1
    } else {
        line_end(s, pos + 1)
    }
}

/// The position after `count` lines have been read from `pos` on.
pub open spec fn skip_lines(s: Seq<u8>, pos: int, count: nat) -> int
    decreases count,
{
    if count == 0 {
        pos
    } else {
        skip_lines(s, line_end(s, pos), (count - 1) as nat)
    }
}

/// A line ends after its start and within the input, and holds no
/// terminator before its last byte.
pub proof fn lemma_line_end_bounds(s: Seq<u8>, pos: int)
    requires
        0 <= pos <= s.len(),
    ensures
        pos <= line_end(s, pos) <= s.len(),
        pos < s.len() ==> pos < line_end(s, pos),
        forall|i: int| pos <= i < line_end(s, pos) - 1 ==> s[i] != LINE_END,
        line_end(s, pos) < s.len() ==> s[line_end(s, pos) - 1] == LINE_END,
    decreases s.len() - pos,
{
    if pos < s.len() && s[pos] != LINE_END {
        lemma_line_end_bounds(s, pos + 1);
    }
}

/// Reading lines never moves backwards nor past the end.
pub proof fn lemma_skip_lines_bounds(s: Seq<u8>, pos: int, count: nat)
    requires
        0 <= pos <= s.len(),
    ensures
        pos <= skip_lines(s, pos, count) <= s.len(),
        count > 0 && pos < s.len() ==> pos < skip_lines(s, pos, count),
    decreases count,
{
    if count > 0 {
        lemma_line_end_bounds(s, pos);
        lemma_skip_lines_bounds(s, line_end(s, pos), (count - 1) as nat);
    }
}

/// At the end of the input every further line is empty.
pub proof fn lemma_skip_lines_at_end(s: Seq<u8>, count: nat)
    ensures
        skip_lines(s, s.len() as int, count) == s.len(),
    decreases count,
{
    if count > 0 {
        lemma_skip_lines_at_end(s, (count - 1) as nat);
    }
}

/// Reading `a` lines and then `b` more is reading `a + b` lines.
pub proof fn lemma_skip_lines_split(s: Seq<u8>, pos: int, a: nat, b: nat)
    ensures
        skip_lines(s, skip_lines(s, pos, a), b) == skip_lines(s, pos, a + b),
    decreases a,
{
    if a > 0 {
        lemma_skip_lines_split(s, line_end(s, pos), (a - 1) as nat, b);
    }
}

/// The whole input with a read position in it.
pub struct ByteSource<'a> {
    pub data: &'a [u8],
    pub pos: usize,
}

impl<'a> ByteSource<'a> {
    /// The position lies within the input or at its end.
    pub open spec fn wf(&self) -> bool {
        self.pos <= self.data@.len()
    }

    /// The bytes that have not been read yet.
    pub open spec fn remaining(&self) -> Seq<u8> {
        self.data@.subrange(self.pos as int, self.data@.len() as int)
    }

    /// A source over `data`, positioned at its first byte.
    pub fn new(data: &'a [u8]) -> (src: ByteSource<'a>)
        ensures
            src.wf(),
            src.data@ == data@,
            src.pos == 0,
    {
        ByteSource { data, pos: 0 }
    }

    /// The number of bytes read so far.
    pub fn position(&self) -> (pos: usize)
        ensures
            pos == self.pos,
    {
        self.pos
    }

    /// Moves the read position to `pos`, or to the end where `pos` lies
    /// behind it.
    pub fn seek(&mut self, pos: usize)
        requires
            old(self).wf(),
        ensures
            final(self).wf(),
            final(self).data@ == old(self).data@,
            final(self).pos == if pos <= old(self).data@.len() {
                pos
            } else {
                old(self).data@.len() as usize
            },
    {
        if pos <= self.data.len() {
            self.pos = pos;
        } else {
            self.pos = self.data.len();
        }
    }

    /// Whether every byte has been read.
    pub fn is_exhausted(&self) -> (done: bool)
        requires
            self.wf(),
        ensures
            done == (self.pos == self.data@.len()),
    {
        self.pos >= self.data.len()
    }

    /// The next byte, without reading it.
    pub fn peek(&self) -> (byte: Option<u8>)
        requires
            self.wf(),
        ensures
            byte == if self.pos < self.data@.len() {
                Some(self.data@[self.pos as int])
            } else {
                None
            },
    {
        if self.pos < self.data.len() {
            Some(self.data[self.pos])
        } else {
            None
        }
    }

    /// Reads one byte, if one is left.
    pub fn next_byte(&mut self) -> (byte: Option<u8>)
        requires
            old(self).wf(),
        ensures
            final(self).wf(),
            final(self).data@ == old(self).data@,
            old(self).pos < old(self).data@.len() ==> byte == Some(
                old(self).data@[old(self).pos as int],
            ) && final(self).pos == old(self).pos + 1,
            old(self).pos >= old(self).data@.len() ==> byte.is_none() && final(self).pos == old(
                self,
            ).pos,
    {
        if self.pos < self.data.len() {
            let b = self.data[self.pos];
            self.pos = self.pos + 1;
            Some(b)
        } else {
            None
        }
    }
}

/// Reads from the source up to and including the next line terminator, or to
/// the end of the input, and returns what was read. The result is empty
/// exactly when the source was exhausted.
pub fn lineloop(lines: &mut ByteSource<'_>) -> (line: Vec<u8>)
    requires
        old(lines).wf(),
    ensures
        final(lines).wf(),
        final(lines).data@ == old(lines).data@,
        final(lines).pos == line_end(old(lines).data@, old(lines).pos as int),
        line@ == old(lines).data@.subrange(old(lines).pos as int, final(lines).pos as int),
        line@.len() == 0 <==> old(lines).pos == old(lines).data@.len(),
{
    let mut l: Vec<u8> = Vec::new();
    let ghost start = lines.pos as int;
    proof {
        lemma_line_end_bounds(lines.data@, start);
    }
    loop
        invariant_except_break
            line_end(lines.data@, lines.pos as int) == line_end(lines.data@, start),
        invariant
            lines.wf(),
            lines.data@ == old(lines).data@,
            start == old(lines).pos,
            start <= lines.pos,
            l@ == lines.data@.subrange(start, lines.pos as int),
        ensures
            lines.wf(),
            lines.data@ == old(lines).data@,
            lines.pos == line_end(lines.data@, start),
            l@ == lines.data@.subrange(start, lines.pos as int),
        decreases lines.data@.len() - lines.pos,
    {
        match lines.next_byte() {
            Some(b) => {
                l.push(b);
                assert(l@ == lines.data@.subrange(start, lines.pos as int));
                if b == LINE_END {
                    break ;
                }
            },
            None => {
                break ;
            },
        }
    }
    l
}

} // verus!
