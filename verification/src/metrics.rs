//! Glyph advances and the measured width of text.
use vstd::prelude::*;

verus! {

/// Advance widths are whole numbers of this many units to the pixel.
pub const UNITS_PER_PIXEL: u32 = 64;

/// The advance width of one character.
#[derive(Clone, Copy, Debug, PartialEq, Eq, Structural)]
pub struct GlyphAdvance {
    pub ch: char,
    pub advance: u32,
}

/// The advance of `ch` by the last entry for it, if there is one.
pub open spec fn lookup(entries: Seq<GlyphAdvance>, ch: char) -> Option<u32>
    decreases entries.len(),
{
    if entries.len() == 0 {
        None
    } else if entries.last().ch == ch {
        Some(entries.last().advance)
    } else {
        lookup(entries.drop_last(), ch)
    }
}

/// The glyph advances of a font at one size: an advance for each character
/// that was measured, and one for all the others.
#[derive(Clone, Debug, PartialEq, Eq)]
pub struct AdvanceTable {
    pub entries: Vec<GlyphAdvance>,
    pub fallback: u32,
}

impl AdvanceTable {
    /// The advance of `ch`: that of its latest entry, or the fallback.
    pub open spec fn advance_of(&self, ch: char) -> nat {
        match lookup(self.entries@, ch) {
            Some(advance) => advance as nat,
            None => self.fallback as nat,
        }
    }

    /// A table in which every character has the advance `fallback`.
    pub fn new(fallback: u32) -> (table: AdvanceTable)
        ensures
            table.fallback == fallback,
            table.entries@.len() == 0,
            forall|ch: char| table.advance_of(ch) == fallback,
    {
        AdvanceTable { entries: Vec::new(), fallback }
    }

    /// Gives `ch` the advance `advance`, whatever it had before.
    pub fn set(&mut self, ch: char, advance: u32)
        ensures
            final(self).fallback == old(self).fallback,
            final(self).entries@ == old(self).entries@.push(GlyphAdvance { ch, advance }),
            final(self).advance_of(ch) == advance,
            forall|other: char|
                other != ch ==> final(self).advance_of(other) == old(self).advance_of(other),
    {
        self.entries.push(GlyphAdvance { ch, advance });
        proof {
            let after = self.entries@;
            assert(after.drop_last() == old(self).entries@);
            assert forall|other: char| other != ch implies self.advance_of(other) == old(
                self,
            ).advance_of(other) by {
                assert(lookup(after, other) == lookup(after.drop_last(), other));
            }
        }
    }

    /// The advance of `ch`.
    pub fn advance(&self, ch: char) -> (advance: u32)
        ensures
            advance == self.advance_of(ch),
    {
        let mut i: usize = self.entries.len();
        assert(self.entries@.take(i as int) == self.entries@);
        while i > 0
            invariant
                i <= self.entries@.len(),
                lookup(self.entries@, ch) == lookup(self.entries@.take(i as int), ch),
            decreases i,
        {
            i = i - 1;
            let entry = self.entries[i];
            let ghost upto = self.entries@.take(i + 1);
            assert(upto.drop_last() == self.entries@.take(i as int));
            assert(upto.last() == self.entries@[i as int]);
            if entry.ch == ch {
                return entry.advance;
            }
        }
        assert(self.entries@.take(0).len() == 0);
        self.fallback
    }

    /// Whether `text` is wider than `limit`.
    pub fn exceeds(&self, text: &Vec<char>, limit: u32) -> (wider: bool)
        ensures
            wider == (text_width(self, text@) > limit),
    {
        let mut width: u64 = 0;
        let mut i: usize = 0;
        while i < text.len()
            invariant
                i <= text@.len(),
                width == text_width(self, text@.take(i as int)),
                width <= limit,
            decreases text@.len() - i,
        {
            let step = self.advance(text[i]);
            proof {
                let upto = text@.take(i + 1);
                assert(upto.drop_last() == text@.take(i as int));
                assert(upto.last() == text@[i as int]);
                lemma_width_of_prefix(self, text@, i + 1);
            }
            width = width + step as u64;
            if width > limit as u64 {
                return true;
            }
            i = i + 1;
        }
        assert(text@.take(text@.len() as int) == text@);
        false
    }
}

/// The measured width of `text`: the sum of the advances of its characters.
pub open spec fn text_width(table: &AdvanceTable, text: Seq<char>) -> nat
    decreases text.len(),
{
    if text.len() == 0 {
        0
    } else {
        text_width(table, text.drop_last()) + table.advance_of(text.last())
    }
}

/// The width of two texts put together is the sum of their widths.
pub proof fn lemma_width_of_concat(table: &AdvanceTable, a: Seq<char>, b: Seq<char>)
    ensures
        text_width(table, a + b) == text_width(table, a) + text_width(table, b),
    decreases b.len(),
{
    if b.len() == 0 {
        assert(a + b == a);
    } else {
        lemma_width_of_concat(table, a, b.drop_last());
        assert((a + b).drop_last() == a + b.drop_last());
        assert((a + b).last() == b.last());
    }
}

/// No prefix of a text is wider than the text.
pub proof fn lemma_width_of_prefix(table: &AdvanceTable, text: Seq<char>, n: int)
    requires
        0 <= n <= text.len(),
    ensures
        text_width(table, text.take(n)) <= text_width(table, text),
{
    lemma_width_of_concat(table, text.take(n), text.skip(n));
    assert(text.take(n) + text.skip(n) == text);
}

/// The width of a text of one character is the advance of that character.
pub proof fn lemma_width_of_one(table: &AdvanceTable, ch: char)
    ensures
        text_width(table, seq![ch]) == table.advance_of(ch),
{
    assert(seq![ch].drop_last().len() == 0);
    assert(text_width(table, seq![ch].drop_last()) == 0);
}

} // verus!
