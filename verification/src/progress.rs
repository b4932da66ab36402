//! A single self-erasing status line, so a sync is not silent while it works.
//!
//! The program writes each frame to stderr, and only when stderr is a
//! terminal; what a frame holds is decided here.

use vstd::prelude::*;

use crate::text::concat;

verus! {

pub struct Progress {
    enabled: bool,
    width: usize,
}

/// `n` spaces.
pub open spec fn spaces(n: nat) -> Seq<char> {
    Seq::new(n, |i: int| ' ')
}

/// The number of bytes `s` takes in UTF-8, which is what a terminal column
/// count is approximated by.
pub open spec fn byte_len(s: Seq<char>) -> nat {
    vstd::utf8::encode_utf8(s).len()
}

impl Progress {
    /// Whether frames are written at all.
    pub closed spec fn writes(self) -> bool {
        self.enabled
    }

    /// The width of the line currently on screen.
    pub closed spec fn shown(self) -> nat {
        self.width as nat
    }

    /// A progress line that writes when `enabled`; the program decides from
    /// whether stderr is a terminal.
    pub fn new(enabled: bool) -> (p: Self)
        ensures
            p.writes() == enabled,
            p.shown() == 0,
    {
        Progress { enabled, width: 0 }
    }

    /// A `Progress` that never writes anything, for tests and library callers.
    pub fn silent() -> (p: Self)
        ensures
            !p.writes(),
            p.shown() == 0,
    {
        Progress { enabled: false, width: 0 }
    }

    pub fn is_enabled(&self) -> (b: bool)
        ensures
            b == self.writes(),
    {
        self.enabled
    }

    pub fn width(&self) -> (w: usize)
        ensures
            w == self.shown(),
    {
        self.width
    }

    /// The text `step` writes for `message`: a carriage return, the message,
    /// and spaces covering whatever the previous, longer message left behind.
    /// The new width is the message's.
    pub fn frame(&mut self, message: &str) -> (r: String)
        ensures
            r@ == seq!['\r'] + message@ + spaces(
                if old(self).shown() > byte_len(message@) {
                    (old(self).shown() - byte_len(message@)) as nat
                } else {
                    0
                },
            ),
            final(self).shown() == byte_len(message@),
            final(self).writes() == old(self).writes(),
    {
        let n = message.as_bytes().len();
        let padding = self.width.saturating_sub(n);
        self.width = n;
        let mut r = concat("\r", message);
        let mut i: usize = 0;
        proof {
            reveal_strlit("\r");
            assert(r@ =~= seq!['\r'] + message@ + spaces(0));
        }
        while i < padding
            invariant
                i <= padding,
                r@ == seq!['\r'] + message@ + spaces(i as nat),
            decreases padding - i,
        {
            r.append(" ");
            proof {
                reveal_strlit(" ");
                assert(r@ =~= seq!['\r'] + message@ + spaces((i + 1) as nat));
            }
            i = i + 1;
        }
        r
    }

    /// Forgets the line on screen, once the program has blanked it.
    pub fn cleared(&mut self)
        ensures
            final(self).shown() == 0,
            final(self).writes() == old(self).writes(),
    {
        self.width = 0;
    }
}

} // verus!
