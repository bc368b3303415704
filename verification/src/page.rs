//! A text that grows, for reports where there is a heap.

use vstd::prelude::*;

use crate::float::Single;
use crate::numeral;
use crate::numeral::Numeral;
use crate::text;

verus! {

/// What a page holds.
pub ghost struct Draft {
    pub text: Seq<u8>,
}

impl Draft {
    pub open spec fn empty() -> Draft {
        Draft { text: Seq::empty() }
    }

    /// The page after a text.
    #[verifier::opaque]
    pub open spec fn put(self, s: Seq<u8>) -> Draft {
        Draft { text: self.text + s }
    }

    pub open spec fn say(self, s: &str) -> Draft {
        self.put(text::bytes(s))
    }

    pub open spec fn decimal(self, n: nat) -> Draft {
        self.put(numeral::decimal(n))
    }

    /// The page after a number with one decimal place.
    pub open spec fn fixed1(self, v: Single) -> Draft {
        self.put(numeral::fixed1(v))
    }

    /// The page after a number without decimal places.
    pub open spec fn fixed0(self, v: Single) -> Draft {
        self.put(numeral::fixed0(v))
    }

    /// The page after `n` spaces.
    pub open spec fn spaces(self, n: int) -> Draft
        decreases n,
    {
        if n <= 0 {
            self
        } else {
            self.spaces(n - 1).put(seq![32u8])
        }
    }

    /// The page after an ASCII text, set to the right of a column.
    pub open spec fn right(self, s: Seq<u8>, width: int) -> Draft {
        self.spaces(width - s.len()).put(s)
    }

    /// The page after a text, set to the left of a column.
    pub open spec fn left(self, s: Seq<u8>, width: int) -> Draft {
        self.put(s).spaces(width - text::char_count(s))
    }
}

/// A text that grows.
pub struct Page {
    text: Vec<u8>,
}

impl View for Page {
    type V = Draft;

    closed spec fn view(&self) -> Draft {
        Draft { text: self.text@ }
    }
}

impl Page {
    pub fn new() -> (r: Page)
        ensures
            r@ == Draft::empty(),
    {
        Page { text: Vec::new() }
    }

    pub fn as_bytes(&self) -> (r: &[u8])
        ensures
            r@ == self@.text,
    {
        self.text.as_slice()
    }

    pub fn put(&mut self, s: &[u8])
        ensures
            final(self)@ == old(self)@.put(s@),
    {
        proof {
            reveal(Draft::put);
        }
        text::append(&mut self.text, s);
    }

    pub fn say(&mut self, s: &str)
        ensures
            final(self)@ == old(self)@.say(s),
    {
        self.put(s.as_bytes());
    }

    pub fn decimal(&mut self, n: u128)
        ensures
            final(self)@ == old(self)@.decimal(n as nat),
    {
        self.put(Numeral::of(n).as_bytes());
    }

    pub fn fixed1(&mut self, v: Single)
        ensures
            final(self)@ == old(self)@.fixed1(v),
    {
        self.put(Numeral::fixed1(v).as_bytes());
    }

    pub fn fixed0(&mut self, v: Single)
        ensures
            final(self)@ == old(self)@.fixed0(v),
    {
        self.put(Numeral::fixed0(v).as_bytes());
    }

    pub fn spaces(&mut self, n: usize)
        ensures
            final(self)@ == old(self)@.spaces(n as int),
    {
        let mut i: usize = 0;
        while i < n
            invariant
                i <= n,
                self@ == old(self)@.spaces(i as int),
            decreases n - i,
        {
            let blank: [u8; 1] = [32];
            assert(blank@ =~= seq![32u8]);
            self.put(blank.as_slice());
            i = i + 1;
        }
    }

    /// An ASCII text, set to the right of a column.
    pub fn right(&mut self, s: &[u8], width: usize)
        ensures
            final(self)@ == old(self)@.right(s@, width as int),
    {
        if s.len() < width {
            self.spaces(width - s.len());
        }
        self.put(s);
    }

    /// A text, set to the left of a column.
    pub fn left(&mut self, s: &str, width: usize)
        ensures
            final(self)@ == old(self)@.left(text::bytes(s), width as int),
    {
        self.put(s.as_bytes());
        let n: usize = text::count_chars(s);
        if n < width {
            self.spaces(width - n);
        }
    }
}

} // verus!
