//! Interactive assembly of a feedback pattern, one per-letter colour at a
//! time, as a front end collects them from the user.

use vstd::prelude::*;
use crate::wordle::Colour;
use crate::wordle::Pattern;

verus! {

/// Collects up to five per-letter colours before they are sealed into a
/// complete feedback pattern.
pub struct PatternBuilder {
    colours: Vec<Colour>,
}

impl View for PatternBuilder {
    type V = Seq<Colour>;

    closed spec fn view(&self) -> Seq<Colour> {
        self.colours@
    }
}

impl PatternBuilder {
    /// A builder never holds more than five colours.
    pub open spec fn wf(self) -> bool {
        self@.len() <= 5
    }

    /// An empty builder.
    pub fn new() -> (b: PatternBuilder)
        ensures
            b.wf(),
            b@.len() == 0,
    {
        PatternBuilder { colours: Vec::new() }
    }

    /// Appends one colour; a full builder refuses it and stays unchanged.
    pub fn append(&mut self, colour: Colour) -> (ok: bool)
        requires
            old(self).wf(),
        ensures
            final(self).wf(),
            ok == (old(self)@.len() < 5),
            ok ==> final(self)@ == old(self)@.push(colour),
            !ok ==> final(self)@ == old(self)@,
    {
        if self.colours.len() == 5 {
            return false;
        }
        self.colours.push(colour);
        true
    }

    /// Removes the most recently entered colour; an empty builder refuses it
    /// and stays unchanged.
    pub fn remove(&mut self) -> (ok: bool)
        requires
            old(self).wf(),
        ensures
            final(self).wf(),
            ok == (old(self)@.len() > 0),
            ok ==> final(self)@ == old(self)@.drop_last(),
            !ok ==> final(self)@ == old(self)@,
    {
        if self.colours.len() == 0 {
            return false;
        }
        let _ = self.colours.pop();
        proof {
            assert(self.colours@ =~= old(self).colours@.drop_last());
        }
        true
    }

    /// The colours entered so far, oldest first.
    pub fn get(&self) -> (r: Vec<Colour>)
        ensures
            r@ == self@,
    {
        let mut out: Vec<Colour> = Vec::new();
        let mut i: usize = 0;
        while i < self.colours.len()
            invariant
                i <= self.colours@.len(),
                out@ == self.colours@.take(i as int),
            decreases self.colours@.len() - i,
        {
            out.push(self.colours[i]);
            proof {
                assert(out@ =~= self.colours@.take(i as int + 1));
            }
            i = i + 1;
        }
        proof {
            assert(self.colours@.take(self.colours@.len() as int) =~= self.colours@);
        }
        out
    }

    /// How many colours have been entered.
    pub fn count(&self) -> (n: usize)
        ensures
            n == self@.len(),
    {
        self.colours.len()
    }

    /// Discards every entered colour.
    pub fn clear(&mut self)
        ensures
            final(self).wf(),
            final(self)@.len() == 0,
    {
        self.colours = Vec::new();
    }

    /// Seals the five colours into a feedback pattern; an incomplete builder
    /// yields nothing.
    pub fn get_pattern(&self) -> (r: Option<Pattern>)
        requires
            self.wf(),
        ensures
            (r is Some) == (self@.len() == 5),
            r matches Some(p) ==> p@ == self@,
    {
        if self.colours.len() != 5 {
            return None;
        }
        let arr = [self.colours[0], self.colours[1], self.colours[2], self.colours[3],
            self.colours[4]];
        proof {
            assert(arr@ =~= self.colours@);
        }
        Some(Pattern::new(arr))
    }
}

} // verus!
