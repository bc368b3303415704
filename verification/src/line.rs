//! The line editor of a serial console: bytes in, what to do out.

use vstd::prelude::*;
use vstd::utf8::*;

use crate::numeral;
use crate::text;

verus! {

/// The longest line that is taken; what is typed beyond it is not.
pub const LINE_MAX: usize = 96;

/// What the terminal is to do after a byte.
#[derive(Clone, Copy, PartialEq, Eq, Structural, Debug)]
pub enum Action {
    /// Nothing.
    Ignore,
    /// Show the byte that was typed.
    Echo(u8),
    /// Take the last character off the screen.
    Erase,
    /// The line is complete.
    Submit,
}

/// Printable ASCII and the space.
pub open spec fn typable(b: u8) -> bool {
    32 <= b <= 126
}

/// The line after a byte, and what to do. A finished line stays as it is until
/// it is taken.
pub open spec fn typed(line: Seq<u8>, b: u8) -> (Seq<u8>, Action) {
    if b == 13 || b == 10 {
        (line, Action::Submit)
    } else if b == 8 || b == 127 {
        if line.len() > 0 {
            (line.drop_last(), Action::Erase)
        } else {
            (line, Action::Ignore)
        }
    } else if typable(b) && line.len() < LINE_MAX {
        (line.push(b), Action::Echo(b))
    } else {
        (line, Action::Ignore)
    }
}

/// One line being typed.
pub struct LineEditor {
    buf: [u8; 96],
    len: usize,
}

impl View for LineEditor {
    type V = Seq<u8>;

    closed spec fn view(&self) -> Seq<u8> {
        self.buf@.subrange(0, self.len as int)
    }
}

impl Default for LineEditor {
    fn default() -> (r: LineEditor)
        ensures
            r@ == Seq::<u8>::empty(),
    {
        LineEditor::new()
    }
}

impl LineEditor {
    #[verifier::type_invariant]
    closed spec fn inv(self) -> bool {
        &&& self.len <= 96
        &&& forall|i: int| 0 <= i < self.len ==> typable(#[trigger] self.buf@[i])
    }

    pub fn new() -> (r: LineEditor)
        ensures
            r@ == Seq::<u8>::empty(),
    {
        let r: LineEditor = LineEditor { buf: [0; 96], len: 0 };
        assert(r@ =~= Seq::empty());
        r
    }

    /// Take one byte from the terminal.
    pub fn feed(&mut self, b: u8) -> (r: Action)
        ensures
            (final(self)@, r) == typed(old(self)@, b),
    {
        proof {
            use_type_invariant(&*self);
        }
        let ghost before: Seq<u8> = self@;
        if b == 13 || b == 10 {
            Action::Submit
        } else if b == 8 || b == 127 {
            if self.len > 0 {
                self.len = self.len - 1;
                assert(self@ =~= before.drop_last());
                Action::Erase
            } else {
                Action::Ignore
            }
        } else if 32 <= b && b <= 126 && self.len < LINE_MAX {
            let at: usize = self.len;
            self.buf[at] = b;
            self.len = at + 1;
            assert(self@ =~= before.push(b));
            Action::Echo(b)
        } else {
            Action::Ignore
        }
    }

    /// The line as it stands.
    pub fn as_str(&self) -> (r: &str)
        ensures
            text::bytes(r) == self@,
            numeral::ascii(self@),
            self@.len() <= LINE_MAX,
    {
        proof {
            use_type_invariant(self);
        }
        let b: &[u8] = vstd::slice::slice_subrange(self.buf.as_slice(), 0, self.len);
        proof {
            assert forall|i: int| 0 <= i < b@.len() implies #[trigger] b@[i] < 0x80 by {
                assert(typable(self.buf@[i]));
            }
            numeral::lemma_ascii_valid(b@);
        }
        match text::utf8(b) {
            Some(s) => s,
            None => text::nothing(),
        }
    }

    /// Begin the next line.
    pub fn clear(&mut self)
        ensures
            final(self)@ == Seq::<u8>::empty(),
    {
        self.len = 0;
        assert(self@ =~= Seq::empty());
    }
}

/// A report as a terminal wants it: every line, the last one too, ended by a
/// carriage return and a line feed.
pub open spec fn terminal_spec(s: Seq<u8>) -> Seq<u8> {
    broken_spec(s) + seq![13u8, 10u8]
}

/// A text with a carriage return before every line feed.
pub open spec fn broken_spec(s: Seq<u8>) -> Seq<u8>
    decreases s.len(),
{
    if s.len() == 0 {
        Seq::empty()
    } else if s.last() == 10 {
        broken_spec(s.drop_last()) + seq![13u8, 10u8]
    } else {
        broken_spec(s.drop_last()).push(s.last())
    }
}

/// Turn a report into what is sent to a terminal.
pub fn terminal_text(s: &[u8]) -> (r: Vec<u8>)
    ensures
        r@ == terminal_spec(s@),
{
    let mut out: Vec<u8> = Vec::new();
    let mut i: usize = 0;
    while i < s.len()
        invariant
            i <= s.len(),
            out@ == broken_spec(s@.take(i as int)),
        decreases s.len() - i,
    {
        assert(s@.take(i + 1).drop_last() =~= s@.take(i as int));
        let ghost before: Seq<u8> = out@;
        if s[i] == 10 {
            out.push(13);
            out.push(10);
            assert(out@ =~= before + seq![13u8, 10u8]);
        } else {
            out.push(s[i]);
        }
        i = i + 1;
    }
    assert(s@.take(i as int) =~= s@);
    let ghost before: Seq<u8> = out@;
    out.push(13);
    out.push(10);
    assert(out@ =~= before + seq![13u8, 10u8]);
    out
}

/// Erasing what was just typed gives back the line from before.
pub proof fn law_erasing_undoes_typing(line: Seq<u8>, b: u8, back: u8)
    requires
        typable(b),
        line.len() < LINE_MAX,
        back == 8 || back == 127,
    ensures
        typed(typed(line, b).0, back) == (line, Action::Erase),
{
    assert(line.push(b).drop_last() =~= line);
}

/// What a byte does to a line: a carriage return or a line feed ends it, a
/// backspace or a delete takes its last byte, printable ASCII is added and shown as
/// long as there are fewer than 96 bytes, and anything else is passed over.
pub proof fn law_what_is_typed(line: Seq<u8>, b: u8)
    ensures
        ({
            let (after, action) = typed(line, b);
            &&& b == 13 || b == 10 ==> after == line && action == Action::Submit
            &&& (b == 8 || b == 127) && line.len() > 0 ==> action == Action::Erase && after.push(
                line.last(),
            ) == line
            &&& (b == 8 || b == 127) && line.len() == 0 ==> action == Action::Ignore && after
                == line
            &&& 32 <= b <= 126 && line.len() < 96 ==> action == Action::Echo(b) && after
                == line.push(b)
            &&& 32 <= b <= 126 && line.len() >= 96 ==> action == Action::Ignore && after == line
            &&& (b < 32 && b != 8 && b != 10 && b != 13) || b > 127 ==> action == Action::Ignore
                && after == line
        }),
{
    if line.len() > 0 {
        assert(line.drop_last().push(line.last()) =~= line);
    }
}

/// On its way to a terminal a text gets a carriage return before every line feed,
/// and both once more at its end.
pub proof fn law_every_line_returns(head: Seq<u8>, b: u8)
    ensures
        terminal_spec(Seq::<u8>::empty()) == seq![13u8, 10u8],
        terminal_spec(head) == broken_spec(head) + seq![13u8, 10u8],
        b == 10 ==> broken_spec(head.push(b)) == broken_spec(head).push(13).push(10),
        b != 10 ==> broken_spec(head.push(b)) == broken_spec(head).push(b),
{
    assert(head.push(b).drop_last() =~= head);
    assert(broken_spec(Seq::<u8>::empty()) =~= Seq::empty());
    assert(Seq::<u8>::empty() + seq![13u8, 10u8] =~= seq![13u8, 10u8]);
    assert(broken_spec(head) + seq![13u8, 10u8] =~= broken_spec(head).push(13).push(10));
}

} // verus!
