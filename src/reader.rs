//! Character sources.

use vstd::prelude::*;

verus! {

/// A forward-only source of characters, read one at a time.
pub trait Reader {
    /// The characters not read yet.
    spec fn rest(&self) -> Seq<char>;

    /// Reads the next character, or `None` once the source is exhausted.
    fn next_char(&mut self) -> (r: Option<char>)
        ensures
            old(self).rest().len() == 0 ==> r is None && final(self).rest() == old(self).rest(),
            old(self).rest().len() > 0 ==> r == Some(old(self).rest()[0])
                && final(self).rest() == old(self).rest().drop_first(),
    ;
}

/// The characters of a string, in order, with a cursor on the next one.
pub struct StringReader {
    chars: Vec<char>,
    pos: usize,
}

impl StringReader {
    /// The reader positioned on the first character of `s`.
    pub fn new(s: &str) -> (r: StringReader)
        ensures
            r.rest() == s@,
    {
        let mut chars: Vec<char> = Vec::new();
        for c in it: s.chars()
            invariant
                chars@ == it.seq().take(it.index() as int),
        {
            chars.push(c);
        }
        assert(chars@ =~= s@);
        StringReader { chars, pos: 0 }
    }
}

impl Reader for StringReader {
    closed spec fn rest(&self) -> Seq<char> {
        if self.pos < self.chars.len() {
            self.chars@.skip(self.pos as int)
        } else {
            Seq::empty()
        }
    }

    fn next_char(&mut self) -> (r: Option<char>) {
        if self.pos < self.chars.len() {
            let c = self.chars[self.pos];
            self.pos = self.pos + 1;
            assert(self.rest() =~= old(self).rest().drop_first());
            Some(c)
        } else {
            None
        }
    }
}

/// A reader over the characters of `s`.
pub fn string_reader(s: &str) -> (r: StringReader)
    ensures
        r.rest() == s@,
{
    StringReader::new(s)
}

} // verus!
