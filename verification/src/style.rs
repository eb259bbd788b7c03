//! Emphasis markers around report text.
//!
//! The report wraps some fragments in bold or underline markers.  Two marker
//! conventions exist: ANSI escape sequences for a terminal, and HTML-like
//! tags, which make expected output easy to write down in tests.

use vstd::prelude::*;
use vstd::string::*;

verus! {

/// Which emphasis markers the renderer emits.
#[derive(Clone, Copy, PartialEq, Eq, Structural)]
pub enum Style {
    /// ANSI escape sequences, for terminal output.
    Terminal,
    /// HTML-like `<b>`/`<u>` tags.
    Markup,
}

/// The characters `bold` wraps around its argument.
pub open spec fn bold_spec(st: Style, s: Seq<char>) -> Seq<char> {
    match st {
        Style::Terminal => "\u{1b}[1m"@ + s + "\u{1b}[0m"@,
        Style::Markup => "<b>"@ + s + "</b>"@,
    }
}

/// The characters `underline` wraps around its argument.
pub open spec fn underline_spec(st: Style, s: Seq<char>) -> Seq<char> {
    match st {
        Style::Terminal => "\u{1b}[4m"@ + s + "\u{1b}[0m"@,
        Style::Markup => "<u>"@ + s + "</u>"@,
    }
}

/// Wraps `text` in the bold markers of `st`.
pub fn bold(st: Style, text: &str) -> (r: String)
    ensures
        r@ == bold_spec(st, text@),
{
    let mut r = match st {
        Style::Terminal => String::from_str("\u{1b}[1m"),
        Style::Markup => String::from_str("<b>"),
    };
    r.append(text);
    match st {
        Style::Terminal => r.append("\u{1b}[0m"),
        Style::Markup => r.append("</b>"),
    }
    r
}

/// Wraps `text` in the underline markers of `st`.
pub fn underline(st: Style, text: &str) -> (r: String)
    ensures
        r@ == underline_spec(st, text@),
{
    let mut r = match st {
        Style::Terminal => String::from_str("\u{1b}[4m"),
        Style::Markup => String::from_str("<u>"),
    };
    r.append(text);
    match st {
        Style::Terminal => r.append("\u{1b}[0m"),
        Style::Markup => r.append("</u>"),
    }
    r
}

} // verus!
