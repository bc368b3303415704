//! A text buffer of fixed size.

use vstd::prelude::*;
use vstd::utf8::*;

use crate::text;

pub mod words;

verus! {

/// What a report buffer holds: its text, whether anything was lost, and how
/// much it can hold.
#[verifier::ext_equal]
pub struct Sink {
    pub text: Seq<u8>,
    pub overflowed: bool,
    pub cap: nat,
}

impl Sink {
    /// An empty buffer.
    pub open spec fn empty(cap: nat) -> Sink {
        Sink { text: Seq::empty(), overflowed: false, cap }
    }

    pub open spec fn wf(self) -> bool {
        self.text.len() <= self.cap && valid_utf8(self.text)
    }

    /// The buffer after one more piece of text: the whole of it if it fits, and
    /// otherwise as many of its characters as do.
    #[verifier::opaque]
    pub open spec fn put(self, piece: Seq<u8>) -> Sink {
        let space = self.cap - self.text.len();
        if piece.len() <= space {
            Sink { text: self.text + piece, ..self }
        } else {
            Sink { text: self.text + text::clipped(piece, space), overflowed: true, ..self }
        }
    }

    /// The buffer after a string.
    pub open spec fn say(self, s: &str) -> Sink {
        self.put(text::bytes(s))
    }
}

/// A text buffer of fixed size.
///
/// What does not fit is dropped and the loss recorded: on a device without a
/// console of its own, a truncated report is a far better failure than a reset.
pub struct ReportBuf<const N: usize> {
    buf: [u8; N],
    len: usize,
    overflowed: bool,
}

impl<const N: usize> View for ReportBuf<N> {
    type V = Sink;

    closed spec fn view(&self) -> Sink {
        Sink {
            text: self.buf@.subrange(0, self.len as int),
            overflowed: self.overflowed,
            cap: N as nat,
        }
    }
}

impl<const N: usize> Default for ReportBuf<N> {
    fn default() -> (r: Self)
        ensures
            r@ == Sink::empty(N as nat),
    {
        Self::new()
    }
}

impl<const N: usize> ReportBuf<N> {
    #[verifier::type_invariant]
    closed spec fn inv(self) -> bool {
        self.len <= N && valid_utf8(self.buf@.subrange(0, self.len as int))
    }

    pub fn new() -> (r: Self)
        ensures
            r@ == Sink::empty(N as nat),
    {
        let buf: [u8; N] = [0; N];
        assert(buf@.subrange(0, 0) =~= Seq::empty());
        ReportBuf { buf, len: 0, overflowed: false }
    }

    pub fn clear(&mut self)
        ensures
            final(self)@ == Sink::empty(N as nat),
    {
        assert(self.buf@.subrange(0, 0) =~= Seq::empty());
        self.len = 0;
        self.overflowed = false;
        assert(self@ =~= Sink::empty(N as nat));
    }

    pub fn as_str(&self) -> (r: &str)
        ensures
            text::bytes(r) == self@.text,
    {
        proof {
            use_type_invariant(self);
        }
        match text::utf8(self.as_bytes()) {
            Some(s) => s,
            None => text::nothing(),
        }
    }

    pub fn as_bytes(&self) -> (r: &[u8])
        ensures
            r@ == self@.text,
            self@.wf(),
            self@.cap == N,
    {
        proof {
            use_type_invariant(self);
        }
        vstd::slice::slice_subrange(self.buf.as_slice(), 0, self.len)
    }

    /// Whether output was lost.
    pub fn overflowed(&self) -> (r: bool)
        ensures
            r == self@.overflowed,
    {
        self.overflowed
    }

    pub fn len(&self) -> (r: usize)
        ensures
            r == self@.text.len(),
            self@.wf(),
            self@.cap == N,
    {
        proof {
            use_type_invariant(self);
        }
        self.len
    }

    pub fn is_empty(&self) -> (r: bool)
        ensures
            r == (self@.text.len() == 0),
    {
        proof {
            use_type_invariant(self);
        }
        self.len == 0
    }

    /// Append a string, or as many of its characters as fit.
    pub fn write_str(&mut self, s: &str)
        ensures
            final(self)@ == old(self)@.say(s),
    {
        proof {
            encode_utf8_valid_utf8(s@);
        }
        self.put(s.as_bytes());
    }

    /// Append a text, or as many of its characters as fit.
    pub fn put(&mut self, piece: &[u8])
        requires
            valid_utf8(piece@),
        ensures
            final(self)@ == old(self)@.put(piece@),
    {
        proof {
            use_type_invariant(&*self);
            reveal(Sink::put);
        }
        let ghost before: Sink = self@;
        let space: usize = N - self.len;
        let fits: bool = piece.len() <= space;
        let take: usize = if fits {
            piece.len()
        } else {
            text::clip_len(piece, space)
        };
        let ghost part: Seq<u8> = piece@.take(take as int);
        proof {
            if fits {
                assert(part =~= piece@);
            } else {
                valid_utf8_split(piece@, take as int);
                assert(part =~= piece@.subrange(0, take as int));
            }
        }
        let start: usize = self.len;
        let mut i: usize = 0;
        while i < take
            invariant
                i <= take <= piece.len(),
                start == self.len,
                start + take <= N,
                before.text.len() == start,
                before.text == self.buf@.subrange(0, start as int),
                before.overflowed == self.overflowed,
                valid_utf8(before.text),
                forall|k: int| start <= k < start + i ==> #[trigger] self.buf@[k] == piece@[k - start],
            decreases take - i,
        {
            proof {
                let ghost next = self.buf@.update(start + i, piece@[i as int]);
                assert(next.subrange(0, start as int) =~= before.text);
            }
            self.buf[start + i] = piece[i];
            i = i + 1;
        }
        proof {
            assert(self.buf@.subrange(0, start + take) =~= before.text + part);
            valid_utf8_concat(before.text, part);
        }
        self.len = start + take;
        if !fits {
            self.overflowed = true;
        }
        assert(self@ =~= before.put(piece@));
    }
}

// --- laws -------------------------------------------------------------------

/// A buffer never holds more than it can, and what it holds is always text.
pub proof fn law_puts_keep_reports_well_formed(s: Sink, piece: Seq<u8>)
    requires
        s.wf(),
        valid_utf8(piece),
    ensures
        s.put(piece).wf(),
        s.put(piece).cap == s.cap,
        s.overflowed ==> s.put(piece).overflowed,
{
    reveal(Sink::put);
    let space = s.cap - s.text.len();
    if piece.len() <= space {
        valid_utf8_concat(s.text, piece);
    } else {
        text::lemma_clipped(piece, space);
        valid_utf8_concat(s.text, text::clipped(piece, space));
    }
}

/// Nothing is lost without saying so: a buffer that has not overflowed holds
/// all that was put into it.
pub proof fn law_nothing_is_lost_silently(s: Sink, piece: Seq<u8>)
    ensures
        !s.put(piece).overflowed ==> s.put(piece).text == s.text + piece,
        s.text.len() + piece.len() <= s.cap ==> s.put(piece).overflowed == s.overflowed,
{
    reveal(Sink::put);
}

} // verus!
