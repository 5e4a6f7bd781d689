use vstd::prelude::*;
use vstd::std_specs::iter::IteratorSpec;

verus! {

/// A position in a sequence of characters, with one character of lookahead.
pub struct Cursor {
    pub chars: Vec<char>,
    pub pos: usize,
}

impl Cursor {
    /// The characters scanned over.
    pub open spec fn text(&self) -> Seq<char> {
        self.chars@
    }

    /// The index of the next character to be consumed.
    pub open spec fn at(&self) -> int {
        self.pos as int
    }

    pub open spec fn wf(&self) -> bool {
        self.pos <= self.chars@.len()
    }

    /// A cursor at the start of the characters of `s`.
    pub fn new(s: &str) -> (r: Cursor)
        ensures
            r.wf(),
            r.text() == s@,
            r.at() == 0,
    {
        let mut chars: Vec<char> = Vec::new();
        let mut it = s.chars();
        loop
            invariant
                it.obeys_prophetic_iter_laws(),
                it.decrease() is Some,
                s@ == chars@ + it.remaining(),
            ensures
                s@ == chars@,
            decreases it.decrease()->0,
        {
            match it.next() {
                Some(c) => {
                    chars.push(c);
                },
                None => {
                    assert(s@ =~= chars@);
                    break;
                },
            }
        }
        Cursor { chars, pos: 0 }
    }

    /// The next character, without consuming it; `None` at the end.
    pub fn peek(&self) -> (r: Option<char>)
        requires
            self.wf(),
        ensures
            r == (if self.at() < self.text().len() {
                Some(self.text()[self.at()])
            } else {
                None::<char>
            }),
    {
        if self.pos < self.chars.len() {
            Some(self.chars[self.pos])
        } else {
            None
        }
    }

    /// Consumes the next character and returns it.
    pub fn advance(&mut self) -> (r: char)
        requires
            old(self).wf(),
            old(self).at() < old(self).text().len(),
        ensures
            final(self).wf(),
            final(self).text() == old(self).text(),
            final(self).at() == old(self).at() + 1,
            r == old(self).text()[old(self).at()],
    {
        let c = self.chars[self.pos];
        assert(self.pos < self.chars.len());
        self.pos = self.pos + 1;
        c
    }
}

/// Consumes the longest run of characters, from the cursor on, that `test`
/// accepts, and returns that run.
pub fn consume_while<F: Fn(char) -> bool>(cursor: &mut Cursor, test: F) -> (r: Vec<char>)
    requires
        old(cursor).wf(),
        forall|c: char| test.requires((c,)),
    ensures
        final(cursor).wf(),
        final(cursor).text() == old(cursor).text(),
        old(cursor).at() <= final(cursor).at(),
        r@ == old(cursor).text().subrange(old(cursor).at(), final(cursor).at()),
        forall|k: int|
            old(cursor).at() <= k < final(cursor).at() ==> test.ensures(
                (old(cursor).text()[k],),
                true,
            ),
        final(cursor).at() < final(cursor).text().len() ==> test.ensures(
            (final(cursor).text()[final(cursor).at()],),
            false,
        ),
{
    let ghost start = cursor.at();
    let mut chars: Vec<char> = Vec::new();
    loop
        invariant
            cursor.wf(),
            cursor.text() == old(cursor).text(),
            start == old(cursor).at(),
            start <= cursor.at(),
            chars@ == cursor.text().subrange(start, cursor.at()),
            forall|c: char| test.requires((c,)),
            forall|k: int| start <= k < cursor.at() ==> test.ensures((cursor.text()[k],), true),
        ensures
            cursor.wf(),
            cursor.text() == old(cursor).text(),
            start <= cursor.at(),
            chars@ == cursor.text().subrange(start, cursor.at()),
            forall|k: int| start <= k < cursor.at() ==> test.ensures((cursor.text()[k],), true),
            cursor.at() < cursor.text().len() ==> test.ensures(
                (cursor.text()[cursor.at()],),
                false,
            ),
        decreases cursor.text().len() - cursor.at(),
    {
        match cursor.peek() {
            Some(c) => {
                if test(c) {
                    let c = cursor.advance();
                    chars.push(c);
                    assert(chars@ =~= cursor.text().subrange(start, cursor.at()));
                } else {
                    break;
                }
            },
            None => {
                break;
            },
        }
    }
    chars
}

} // verus!
