//! Closed ranges of Unicode characters and the enumeration of all scalar values.
use vstd::prelude::*;

verus! {

/// A Unicode scalar value is any code point outside the surrogate block.
pub open spec fn is_scalar_value(n: int) -> bool {
    (0 <= n <= 0xD7FF) || (0xE000 <= n <= 0x10FFFF)
}

/// The scalar value that follows `n`, skipping the surrogate block; `None` after the last one.
pub open spec fn next_scalar_value(n: int) -> Option<int> {
    if n < 0xD7FF {
        Some(n + 1)
    } else if n < 0xE000 {
        Some(0xE000)
    } else if n < 0x10FFFF {
        Some(n + 1)
    } else {
        None
    }
}

/// The number of scalar values strictly below `n`.
pub open spec fn scalar_rank(n: int) -> int {
    if n <= 0xD800 {
        n
    } else if n <= 0xE000 {
        0xD800
    } else {
        n - 0x800
    }
}

/// Returns the character whose code point is `n`, if `n` is a scalar value.
#[verifier::external_body]
fn char_from_u32(n: u32) -> (res: Option<char>)
    ensures
        res is Some <==> is_scalar_value(n as int),
        res matches Some(c) ==> c as int == n as int,
{
    char::from_u32(n)
}

/// A closed range of Unicode characters.
#[derive(Debug, Clone, Copy, PartialEq, Eq)]
pub struct CharRange {
    start: char,
    end: char,
}

impl CharRange {
    pub closed spec fn start_value(&self) -> char {
        self.start
    }

    pub closed spec fn end_value(&self) -> char {
        self.end
    }

    /// Creates a closed character range from start to end (inclusive).
    pub fn closed(start: char, end: char) -> (r: Self)
        ensures
            r.start_value() == start,
            r.end_value() == end,
    {
        Self { start, end }
    }

    /// Checks whether the given character lies within this range.
    pub fn contains(&self, c: char) -> (b: bool)
        ensures
            b <==> (self.start_value() as int <= c as int <= self.end_value() as int),
    {
        c >= self.start && c <= self.end
    }

    /// Returns an enumeration of all Unicode scalar values in ascending order,
    /// from U+0000 to U+D7FF and from U+E000 to U+10FFFF.
    pub fn all() -> (it: CharRangeIter)
        ensures
            it.remaining() == 0x10F800,
            it.next_value() == Some(0int),
            it.wf(),
    {
        CharRangeIter { current: '\0', done: false }
    }
}

/// An enumeration of all Unicode scalar values.
pub struct CharRangeIter {
    current: char,
    done: bool,
}

impl CharRangeIter {
    /// The code point that the next call of `next` returns, if any.
    pub closed spec fn next_value(&self) -> Option<int> {
        if self.done {
            None
        } else {
            Some(self.current as int)
        }
    }

    /// How many values are left to be returned.
    pub closed spec fn remaining(&self) -> int {
        if self.done {
            0
        } else {
            0x10F800 - scalar_rank(self.current as int)
        }
    }

    /// The iterator's invariant: the pending value is a scalar value.
    pub closed spec fn wf(&self) -> bool {
        self.done || is_scalar_value(self.current as int)
    }

    /// An enumeration has values left exactly when it has a next value, so that
    /// `CharRange::all` returns 0x10F800 values and then none.
    pub proof fn lemma_remaining(&self)
        requires
            self.wf(),
        ensures
            self.remaining() >= 0,
            (self.remaining() == 0) == (self.next_value() is None),
    {
    }

    /// Returns the next scalar value, or `None` once all have been returned.
    pub fn next(&mut self) -> (res: Option<char>)
        ensures
            match old(self).next_value() {
                None => res is None && final(self).next_value() is None,
                Some(v) => res matches Some(c) && c as int == v
                    && final(self).next_value() == next_scalar_value(v),
            },
            old(self).remaining() > 0 ==> final(self).remaining() == old(self).remaining() - 1,
            old(self).remaining() == 0 ==> final(self).remaining() == 0,
            old(self).wf() ==> final(self).wf(),
    {
        if self.done {
            return None;
        }
        let result = self.current;
        let cur: u32 = self.current as u32;
        if cur >= 0x10FFFF {
            self.done = true;
        } else {
            let next: u32 = if cur == 0xD7FF { 0xE000 } else { cur + 1 };
            match char_from_u32(next) {
                Some(c) => {
                    self.current = c;
                },
                None => {
                    self.done = true;
                },
            }
        }
        Some(result)
    }
}

} // verus!
