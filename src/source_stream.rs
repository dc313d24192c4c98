use vstd::prelude::*;
use vstd::string::StringSliceAdditionalSpecFns;

verus! {

/// A line/column location in the source, both counted from 1.
#[derive(Debug, Clone, Copy, PartialEq, Eq, Structural)]
pub struct Position {
    pub line: usize,
    pub character: usize,
}

/// The position reached after reading all of `s` from the start of the text:
/// a newline moves to the first column of the next line, any other byte moves
/// one column to the right.
pub open spec fn position_after(s: Seq<u8>) -> (nat, nat)
    decreases s.len(),
{
    if s.len() == 0 {
        (1, 1)
    } else {
        let (line, character) = position_after(s.drop_last());
        if s.last() == 10u8 {
            (line + 1, 1)
        } else {
            (line, character + 1)
        }
    }
}

/// Lines and columns never run ahead of the number of bytes read.
pub proof fn lemma_position_bounded(s: Seq<u8>)
    ensures
        1 <= position_after(s).0 <= s.len() + 1,
        1 <= position_after(s).1 <= s.len() + 1,
    decreases s.len(),
{
    if s.len() > 0 {
        lemma_position_bounded(s.drop_last());
    }
}

/// A byte reader over a text, which keeps track of the line and column of the
/// next byte.
pub struct SourceStream {
    source: Vec<u8>,
    index: usize,
    cur_line: usize,
    cur_char: usize,
}

impl SourceStream {
    /// The whole text.
    pub closed spec fn text(&self) -> Seq<u8> {
        self.source@
    }

    /// How many bytes have been consumed.
    pub closed spec fn index(&self) -> nat {
        self.index as nat
    }

    /// The byte `k` places ahead of the next one, if there is one.
    pub open spec fn byte_ahead(&self, k: int) -> Option<u8> {
        if self.index() + k < self.text().len() {
            Some(self.text()[self.index() + k])
        } else {
            None
        }
    }

    pub closed spec fn position(&self) -> Position {
        Position { line: self.cur_line, character: self.cur_char }
    }

    pub closed spec fn wf(&self) -> bool {
        &&& self.index <= self.source@.len()
        &&& self.source@.len() < usize::MAX
        &&& self.cur_line as nat == position_after(self.source@.take(self.index as int)).0
        &&& self.cur_char as nat == position_after(self.source@.take(self.index as int)).1
    }

    pub proof fn lemma_wf(&self)
        requires
            self.wf(),
        ensures
            self.index() <= self.text().len() < usize::MAX,
            self.position().line as nat == position_after(self.text().take(self.index() as int)).0,
            self.position().character as nat == position_after(
                self.text().take(self.index() as int),
            ).1,
    {
    }

    /// A reader at the start of `source`, which is expected to be ASCII.
    pub fn new(source: &str) -> (r: Self)
        requires
            source.spec_bytes().len() < usize::MAX,
        ensures
            r.wf(),
            r.text() == source.spec_bytes(),
            r.index() == 0,
            r.position() == (Position { line: 1, character: 1 }),
    {
        let bytes = source.as_bytes();
        let mut v: Vec<u8> = Vec::new();
        let mut i: usize = 0;
        while i < bytes.len()
            invariant
                i <= bytes@.len(),
                v@ == bytes@.take(i as int),
            decreases bytes@.len() - i,
        {
            v.push(bytes[i]);
            i = i + 1;
            assert(v@ =~= bytes@.take(i as int));
        }
        assert(v@ =~= bytes@);
        assert(v@.take(0) =~= Seq::<u8>::empty());
        SourceStream { source: v, index: 0, cur_line: 1, cur_char: 1 }
    }

    /// The next byte, without consuming it; `None` at the end of the text.
    pub fn peek(&self) -> (r: Option<u8>)
        requires
            self.wf(),
        ensures
            r == self.byte_ahead(0),
    {
        if self.index < self.source.len() {
            Some(self.source[self.index])
        } else {
            None
        }
    }

    /// The byte after the next one, without consuming anything.
    pub fn peek_second(&self) -> (r: Option<u8>)
        requires
            self.wf(),
        ensures
            r == self.byte_ahead(1),
    {
        if self.index < self.source.len() && self.index + 1 < self.source.len() {
            Some(self.source[self.index + 1])
        } else {
            None
        }
    }

    /// Consumes and returns the next byte, moving the position past it;
    /// `None`, with nothing changed, at the end of the text.
    pub fn next(&mut self) -> (r: Option<u8>)
        requires
            old(self).wf(),
        ensures
            final(self).wf(),
            r == old(self).byte_ahead(0),
            final(self).text() == old(self).text(),
            final(self).index() == old(self).index() + if r.is_some() {
                1nat
            } else {
                0nat
            },
            r.is_none() ==> final(self).position() == old(self).position(),
            r == Some(10u8) ==> final(self).position() == (Position {
                line: (old(self).position().line + 1) as usize,
                character: 1,
            }),
            r.is_some() && r != Some(10u8) ==> final(self).position() == (Position {
                line: old(self).position().line,
                character: (old(self).position().character + 1) as usize,
            }),
    {
        if self.index < self.source.len() {
            let c = self.source[self.index];
            proof {
                let s = self.source@.take(self.index as int + 1);
                assert(s.drop_last() =~= self.source@.take(self.index as int));
                lemma_position_bounded(s);
                lemma_position_bounded(s.drop_last());
            }
            self.index = self.index + 1;
            if c == 10u8 {
                self.cur_line = self.cur_line + 1;
                self.cur_char = 1;
            } else {
                self.cur_char = self.cur_char + 1;
            }
            Some(c)
        } else {
            None
        }
    }

    /// Consumes the next byte only if it is `expected`, and says whether it did.
    pub fn expect(&mut self, expected: u8) -> (r: bool)
        requires
            old(self).wf(),
        ensures
            final(self).wf(),
            r == (old(self).byte_ahead(0) == Some(expected)),
            final(self).text() == old(self).text(),
            final(self).index() == old(self).index() + if r {
                1nat
            } else {
                0nat
            },
            !r ==> *final(self) == *old(self),
    {
        match self.peek() {
            Some(c) => {
                if c == expected {
                    self.next();
                    true
                } else {
                    false
                }
            },
            None => false,
        }
    }

    /// Consumes the longest run of bytes that satisfy `predicate` and returns
    /// it; the first byte that fails it is left in place.
    pub fn take_while<F: Fn(&u8) -> bool>(&mut self, predicate: F) -> (r: Vec<u8>)
        requires
            old(self).wf(),
            forall|b: u8| predicate.requires((&b,)),
        ensures
            final(self).wf(),
            final(self).text() == old(self).text(),
            old(self).index() <= final(self).index(),
            r@ == old(self).text().subrange(old(self).index() as int, final(self).index() as int),
            forall|i: int|
                old(self).index() <= i < final(self).index() ==> predicate.ensures(
                    (&old(self).text()[i],),
                    true,
                ),
            final(self).index() < final(self).text().len() ==> predicate.ensures(
                (&old(self).text()[final(self).index() as int],),
                false,
            ),
    {
        let start = self.index;
        let mut out: Vec<u8> = Vec::new();
        loop
            invariant
                self.wf(),
                self.text() == old(self).text(),
                start == old(self).index(),
                start <= self.index(),
                out@ == self.text().subrange(start as int, self.index() as int),
                forall|b: u8| predicate.requires((&b,)),
                forall|i: int|
                    start <= i < self.index() ==> predicate.ensures((&self.text()[i],), true),
            ensures
                self.wf(),
                self.text() == old(self).text(),
                start <= self.index(),
                out@ == self.text().subrange(start as int, self.index() as int),
                forall|i: int|
                    start <= i < self.index() ==> predicate.ensures((&self.text()[i],), true),
                self.index() < self.text().len() ==> predicate.ensures(
                    (&self.text()[self.index() as int],),
                    false,
                ),
            decreases self.text().len() - self.index(),
        {
            match self.peek() {
                Some(c) => {
                    if predicate(&c) {
                        self.next();
                        out.push(c);
                        assert(out@ =~= self.text().subrange(start as int, self.index() as int));
                    } else {
                        break;
                    }
                },
                None => {
                    break;
                },
            }
        }
        out
    }

    /// The position of the next byte.
    pub fn current_position(&self) -> (r: Position)
        ensures
            r == self.position(),
    {
        Position { line: self.cur_line, character: self.cur_char }
    }
}

} // verus!
