//! Minimal ANSI styling, applied only when the output is going to a terminal.
//!
//! A report is read by a person scanning for the one line that matters, so the
//! direction of a change and the name of an IDE are worth making visually
//! distinct. Piped or redirected output stays plain text, because something
//! is usually parsing it.

use vstd::prelude::*;

use crate::text::concat;

verus! {

#[derive(Debug, Clone, Copy)]
pub struct Style {
    enabled: bool,
}

/// `text` wrapped in the escape sequence `code`, then a reset.
pub open spec fn painted(code: Seq<char>, text: Seq<char>) -> Seq<char> {
    seq!['\u{1b}', '['] + code + seq!['m'] + text + seq!['\u{1b}', '[', '0', 'm']
}

impl Style {
    /// Whether this style emits escape sequences.
    pub closed spec fn colored(self) -> bool {
        self.enabled
    }

    /// A style that emits escape sequences when `enabled`; the program decides
    /// from the terminal and `NO_COLOR`.
    pub fn new(enabled: bool) -> (s: Self)
        ensures
            s.colored() == enabled,
    {
        Style { enabled }
    }

    /// The plain style, as a value.
    pub closed spec fn plain_spec() -> Self {
        Style { enabled: false }
    }

    /// The plain style emits no escape sequences.
    pub proof fn lemma_plain_spec()
        ensures
            !Self::plain_spec().colored(),
    {
    }

    pub fn plain() -> (s: Self)
        ensures
            !s.colored(),
            s == Self::plain_spec(),
    {
        Style { enabled: false }
    }

    /// What painting `text` with `code` gives under this style.
    pub open spec fn paint_spec(self, code: Seq<char>, text: Seq<char>) -> Seq<char> {
        if self.colored() {
            painted(code, text)
        } else {
            text
        }
    }

    fn paint(self, code: &str, text: &str) -> (r: String)
        ensures
            r@ == self.paint_spec(code@, text@),
    {
        if self.enabled {
            let mut r = concat("\u{1b}[", code);
            r.append("m");
            r.append(text);
            r.append("\u{1b}[0m");
            proof {
                reveal_strlit("\u{1b}[");
                reveal_strlit("m");
                reveal_strlit("\u{1b}[0m");
                assert(r@ =~= painted(code@, text@));
            }
            r
        } else {
            text.to_owned()
        }
    }

    pub fn bold(self, text: &str) -> (r: String)
        ensures
            r@ == self.paint_spec("1"@, text@),
    {
        self.paint("1", text)
    }

    pub fn dim(self, text: &str) -> (r: String)
        ensures
            r@ == self.paint_spec("2"@, text@),
    {
        self.paint("2", text)
    }

    pub fn cyan(self, text: &str) -> (r: String)
        ensures
            r@ == self.paint_spec("36"@, text@),
    {
        self.paint("36", text)
    }

    pub fn green(self, text: &str) -> (r: String)
        ensures
            r@ == self.paint_spec("32"@, text@),
    {
        self.paint("32", text)
    }

    pub fn yellow(self, text: &str) -> (r: String)
        ensures
            r@ == self.paint_spec("33"@, text@),
    {
        self.paint("33", text)
    }
}

/// Plain styling adds nothing to any text, whatever the colour.
pub proof fn law_plain_styling_adds_nothing(style: Style, code: Seq<char>, text: Seq<char>)
    requires
        !style.colored(),
    ensures
        style.paint_spec(code, text) == text,
{
}

/// Colour wraps the text whole: stripping the opening sequence and the reset
/// gives it back.
pub proof fn law_styling_wraps_and_resets(style: Style, code: Seq<char>, text: Seq<char>)
    requires
        style.colored(),
    ensures
        style.paint_spec(code, text).subrange(code.len() + 3 as int, code.len() + 3 + text.len() as int) == text,
        style.paint_spec(code, text).len() == text.len() + code.len() + 7,
{
    let p = style.paint_spec(code, text);
    assert(p.subrange(code.len() + 3 as int, code.len() + 3 + text.len() as int) =~= text);
}

} // verus!
