use vstd::prelude::*;

use crate::chars::{chars_of, lemma_scan_end_bounds, run_accepts, scan_end, Run};

verus! {

/// A cursor over the characters of a text, with one character of lookahead.
pub struct Source {
    chars: Vec<char>,
    pos: usize,
    current: Option<char>,
}

impl Source {
    /// The whole text.
    pub closed spec fn text(&self) -> Seq<char> {
        self.chars@
    }

    /// How many characters have been consumed.
    pub closed spec fn pos(&self) -> int {
        self.pos as int
    }

    /// The character consumed last, if any.
    pub closed spec fn last(&self) -> Option<char> {
        self.current
    }

    /// The characters not yet consumed.
    pub open spec fn rest(&self) -> Seq<char> {
        self.text().subrange(self.pos(), self.text().len() as int)
    }

    pub open spec fn wf(&self) -> bool {
        0 <= self.pos() <= self.text().len()
    }

    /// A cursor at the start of `input`.
    pub fn new(input: &str) -> (r: Source)
        ensures
            r.wf(),
            r.text() == input@,
            r.pos() == 0,
            r.last() == None::<char>,
    {
        Source { chars: chars_of(input), pos: 0, current: None }
    }

    /// The character consumed last, or `None` before the first advance.
    pub fn current(&self) -> (r: Option<char>)
        ensures
            r == self.last(),
    {
        self.current
    }

    /// The next character, without consuming it.
    pub fn peek(&self) -> (r: Option<&char>)
        requires
            self.wf(),
        ensures
            self.pos() < self.text().len() ==> r is Some && *r.unwrap() == self.text()[self.pos()],
            self.pos() >= self.text().len() ==> r is None,
    {
        if self.pos < self.chars.len() {
            Some(&self.chars[self.pos])
        } else {
            None
        }
    }

    /// Consumes and returns the next character; at the end, `None`.
    pub fn next(&mut self) -> (r: Option<char>)
        requires
            old(self).wf(),
        ensures
            final(self).wf(),
            final(self).text() == old(self).text(),
            old(self).pos() < old(self).text().len() ==> {
                &&& r == Some(old(self).text()[old(self).pos()])
                &&& final(self).pos() == old(self).pos() + 1
            },
            old(self).pos() >= old(self).text().len() ==> {
                &&& r == None::<char>
                &&& final(self).pos() == old(self).pos()
            },
            final(self).last() == r,
    {
        if self.pos < self.chars.len() {
            let c = self.chars[self.pos];
            self.pos = self.pos + 1;
            self.current = Some(c);
        } else {
            self.current = None;
        }
        self.current
    }

    /// Consumes characters while the next one belongs to a run of kind `k`, and
    /// returns them; the first character that does not is left in place.
    pub fn take_while(&mut self, k: Run) -> (r: Vec<char>)
        requires
            old(self).wf(),
        ensures
            final(self).wf(),
            final(self).text() == old(self).text(),
            final(self).pos() == scan_end(old(self).text(), k, old(self).pos()),
            r@ == old(self).text().subrange(old(self).pos(), final(self).pos()),
            r@.len() > 0 ==> final(self).last() == Some(r@.last()),
            r@.len() == 0 ==> final(self).last() == old(self).last(),
    {
        let ghost start = self.pos as int;
        proof {
            lemma_scan_end_bounds(self.chars@, k, start);
        }
        let mut taken: Vec<char> = Vec::new();
        while self.pos < self.chars.len() && run_accepts(k, self.chars[self.pos])
            invariant
                0 <= start <= self.pos <= self.chars.len(),
                scan_end(self.chars@, k, self.pos as int) == scan_end(self.chars@, k, start),
                taken@ == self.chars@.subrange(start, self.pos as int),
                taken@.len() > 0 ==> self.current == Some(taken@.last()),
                taken@.len() == 0 ==> self.current == old(self).current,
                self.chars == old(self).chars,
            decreases self.chars.len() - self.pos,
        {
            let c = self.chars[self.pos];
            taken.push(c);
            self.pos = self.pos + 1;
            self.current = Some(c);
            assert(taken@ =~= self.chars@.subrange(start, self.pos as int));
        }
        taken
    }
}

} // verus!
