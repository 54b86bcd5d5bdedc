//! A cursor over the characters of a string.

use crate::text::chars_of;
use vstd::prelude::*;

verus! {

/// The characters of a string that have not been read yet.
pub struct Scanner {
    chars: Vec<char>,
    position: usize,
}

impl View for Scanner {
    type V = Seq<char>;

    closed spec fn view(&self) -> Seq<char> {
        self.chars@.skip(self.position as int)
    }
}

impl Scanner {
    #[verifier::type_invariant]
    spec fn in_bounds(self) -> bool {
        self.position <= self.chars@.len()
    }

    /// A cursor at the start of `string`.
    pub fn new(string: &str) -> (scanner: Scanner)
        ensures
            scanner@ == string@,
    {
        let scanner = Scanner { chars: chars_of(string), position: 0 };
        assert(scanner@ == string@);
        scanner
    }

    /// The number of characters that are left.
    pub fn len(&self) -> (len: usize)
        ensures
            len == self@.len(),
    {
        proof {
            use_type_invariant(self);
        }
        self.chars.len() - self.position
    }

    /// The character `index` places ahead, which stays unread.
    pub fn get(&self, index: usize) -> (c: char)
        requires
            index < self@.len(),
        ensures
            c == self@[index as int],
    {
        proof {
            use_type_invariant(self);
        }
        assert(self.position + index < self.chars.len());
        self.chars[self.position + index]
    }

    /// The next character, which stays unread.
    pub fn peek(&self) -> (c: Option<char>)
        ensures
            c == (if self@.len() > 0 {
                Some(self@[0])
            } else {
                None
            }),
    {
        if self.len() > 0 {
            Some(self.get(0))
        } else {
            None
        }
    }

    /// The next `count` characters, which stay unread.
    pub fn prefix(&self, count: usize) -> (chars: Vec<char>)
        requires
            count <= self@.len(),
        ensures
            chars@ == self@.take(count as int),
    {
        let mut chars: Vec<char> = Vec::new();
        let mut i: usize = 0;
        while i < count
            invariant
                i <= count <= self@.len(),
                chars@ == self@.take(i as int),
            decreases count - i,
        {
            chars.push(self.get(i));
            i += 1;
            assert(self@.take(i as int) == self@.take(i - 1).push(self@[i - 1]));
        }
        chars
    }

    /// Reads `count` characters.
    pub fn skip(&mut self, count: usize)
        requires
            count <= old(self)@.len(),
        ensures
            final(self)@ == old(self)@.skip(count as int),
    {
        proof {
            use_type_invariant(&*self);
        }
        assert(self.position + count <= self.chars.len());
        self.position = self.position + count;
        assert(self@ == old(self)@.skip(count as int));
    }

    /// Reads the next character.
    pub fn next(&mut self) -> (c: Option<char>)
        ensures
            old(self)@.len() > 0 ==> c == Some(old(self)@[0]) && final(self)@ == old(
                self,
            )@.skip(1),
            old(self)@.len() == 0 ==> c is None && final(self)@ == old(self)@,
    {
        let c = self.peek();
        if c.is_some() {
            self.skip(1);
        }
        c
    }
}

} // verus!
