//! Colours of terminal text.
use colored::{Color, Colorize};
use vstd::prelude::*;

use crate::text;

verus! {

/// A colour of text.
#[derive(Debug, Clone, Copy, PartialEq, Eq, Structural)]
pub enum Ink {
    Red,
    Green,
    Yellow,
    Blue,
    Magenta,
    Cyan,
    BrightGreen,
    BrightYellow,
    BrightMagenta,
    BrightCyan,
}

/// The number by which terminals know a colour.
pub open spec fn ink_code(ink: Ink) -> Seq<char> {
    match ink {
        Ink::Red => "31"@,
        Ink::Green => "32"@,
        Ink::Yellow => "33"@,
        Ink::Blue => "34"@,
        Ink::Magenta => "35"@,
        Ink::Cyan => "36"@,
        Ink::BrightGreen => "92"@,
        Ink::BrightYellow => "93"@,
        Ink::BrightMagenta => "95"@,
        Ink::BrightCyan => "96"@,
    }
}

/// The sequence that switches a style on.
pub open spec fn style_on(code: Seq<char>) -> Seq<char> {
    "\u{1b}["@ + code + "m"@
}

/// The sequence that switches all styles off.
pub open spec fn style_off() -> Seq<char> {
    "\u{1b}[0m"@
}

/// `s` with `style` behind each sequence that switches all styles off.
pub open spec fn restyle(s: Seq<char>, style: Seq<char>) -> Seq<char>
    decreases s.len(),
{
    match text::find_from(s, style_off(), 0) {
        Some(i) => if 0 <= i && style_off().len() > 0 && i + style_off().len() <= s.len() {
            s.take(i + style_off().len()) + style + restyle(s.skip(i + style_off().len()), style)
        } else {
            s
        },
        None => s,
    }
}

/// Whether `shown` is `s` as a terminal shows it: in the style of that code, or
/// plain where colours are switched off.
pub open spec fn shows(shown: Seq<char>, code: Seq<char>, s: Seq<char>) -> bool {
    shown == s || shown == style_on(code) + restyle(s, style_on(code)) + style_off()
}

/// `colored::Colorize::color`: the text in a colour. Whether colours are
/// switched on depends on the environment, so which of the two results comes
/// is not stated.
#[verifier::external_body]
pub(crate) fn paint(s: &str, ink: Ink) -> (r: String)
    ensures
        shows(r@, ink_code(ink), s@),
{
    let color = match ink {
        Ink::Red => Color::Red,
        Ink::Green => Color::Green,
        Ink::Yellow => Color::Yellow,
        Ink::Blue => Color::Blue,
        Ink::Magenta => Color::Magenta,
        Ink::Cyan => Color::Cyan,
        Ink::BrightGreen => Color::BrightGreen,
        Ink::BrightYellow => Color::BrightYellow,
        Ink::BrightMagenta => Color::BrightMagenta,
        Ink::BrightCyan => Color::BrightCyan,
    };
    s.color(color).to_string()
}

/// `colored::Colorize::bold`: the text in bold type. Whether styles are
/// switched on depends on the environment, so which of the two results comes
/// is not stated.
#[verifier::external_body]
pub(crate) fn paint_bold(s: &str) -> (r: String)
    ensures
        shows(r@, "1"@, s@),
{
    s.bold().to_string()
}

/// `colored::Colorize::dimmed`: the text in faint type. Whether styles are
/// switched on depends on the environment, so which of the two results comes
/// is not stated.
#[verifier::external_body]
pub(crate) fn paint_dimmed(s: &str) -> (r: String)
    ensures
        shows(r@, "2"@, s@),
{
    s.dimmed().to_string()
}

/// `colored::Colorize::yellow` followed by `bold`: the text in yellow bold
/// type. Whether styles are switched on depends on the environment, so which
/// of the two results comes is not stated.
#[verifier::external_body]
pub(crate) fn paint_bold_yellow(s: &str) -> (r: String)
    ensures
        shows(r@, "1;33"@, s@),
{
    s.yellow().bold().to_string()
}

// ---------------------------------------------------------------------------
// Laws

/// Text in which no style ends is shown as it is, or between the code of its
/// style and the code that ends it.
pub proof fn lemma_shows_text(shown: Seq<char>, code: Seq<char>, s: Seq<char>)
    requires
        shows(shown, code, s),
        text::find_from(s, style_off(), 0) is None,
    ensures
        shown == s || shown == "\u{1b}["@ + code + "m"@ + s + "\u{1b}[0m"@,
{
}

/// Different colors have different codes.
pub proof fn lemma_ink_codes_differ(a: Ink, b: Ink)
    requires
        ink_code(a) == ink_code(b),
    ensures
        a == b,
{
    reveal_strlit("31");
    reveal_strlit("32");
    reveal_strlit("33");
    reveal_strlit("34");
    reveal_strlit("35");
    reveal_strlit("36");
    reveal_strlit("92");
    reveal_strlit("93");
    reveal_strlit("95");
    reveal_strlit("96");
    assert("31"@[1] == '1' && "32"@[1] == '2' && "33"@[1] == '3' && "34"@[1] == '4' && "35"@[1] == '5'
        && "36"@[1] == '6');
    assert("92"@[1] == '2' && "93"@[1] == '3' && "95"@[1] == '5' && "96"@[1] == '6');
    assert("31"@[0] == '3' && "32"@[0] == '3' && "33"@[0] == '3' && "34"@[0] == '3' && "35"@[0] == '3'
        && "36"@[0] == '3');
    assert("92"@[0] == '9' && "93"@[0] == '9' && "95"@[0] == '9' && "96"@[0] == '9');
}

/// The codes of the colors are those of terminals: from 31 on for red, green,
/// yellow, blue, magenta and cyan, and sixty more for the bright ones.
pub proof fn lemma_ink_codes()
    ensures
        ink_code(Ink::Red) == "31"@,
        ink_code(Ink::Green) == "32"@,
        ink_code(Ink::Yellow) == "33"@,
        ink_code(Ink::Blue) == "34"@,
        ink_code(Ink::Magenta) == "35"@,
        ink_code(Ink::Cyan) == "36"@,
        ink_code(Ink::BrightGreen) == "92"@,
        ink_code(Ink::BrightYellow) == "93"@,
        ink_code(Ink::BrightMagenta) == "95"@,
        ink_code(Ink::BrightCyan) == "96"@,
{
}

/// Where a style ends inside a text that has one of its own, the text's own
/// style begins again, and so on behind it.
pub proof fn lemma_style_begins_again(a: Seq<char>, b: Seq<char>, style: Seq<char>)
    requires
        text::find_from(a + "\u{1b}[0m"@ + b, "\u{1b}[0m"@, 0) == Some(a.len() as int),
    ensures
        restyle(a + "\u{1b}[0m"@ + b, style) == a + "\u{1b}[0m"@ + style + restyle(b, style),
{
    reveal_strlit("\u{1b}[0m");
    let off = style_off();
    let s = a + off + b;
    let i = a.len() as int;
    assert(off.len() > 0);
    assert(s.take(i + off.len()) =~= a + off);
    assert(s.skip(i + off.len()) =~= b);
}

} // verus!
