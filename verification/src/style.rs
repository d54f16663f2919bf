//! Colours and attributes of terminal text, as the terminal library writes
//! them.
use crate::text;
use vstd::prelude::*;

verus! {

/// Bold text, as `bold` gives it.
pub open spec fn bold_text(s: Seq<char>) -> Seq<char> {
    "\x1b[1m"@ + s + "\x1b[22m"@
}

/// The switch to a foreground colour, as `set_fg` gives it.
pub open spec fn fg_text(color: u8) -> Seq<char> {
    "\x1b[38;5;"@ + text::decimal(color as nat) + "m"@
}

/// The switch to a background colour, as `set_bg` gives it.
pub open spec fn bg_text(color: u8) -> Seq<char> {
    "\x1b[48;5;"@ + text::decimal(color as nat) + "m"@
}

/// Text in two colours, as `styled` gives it without attributes.
pub open spec fn two_colours_text(s: Seq<char>, fg: u8, bg: u8) -> Seq<char> {
    "\x1b[38;5;"@ + text::decimal(fg as nat) + ";48;5;"@ + text::decimal(bg as nat) + "m"@ + s
        + "\x1b[0m"@
}

/// `crust::style::bold`: the text between the codes that switch bold on and
/// off.
#[verifier::external_body]
pub(crate) fn bold(s: &str) -> (r: String)
    ensures
        r@ == bold_text(s@),
{
    crust::style::bold(s)
}

/// `crust::style::set_fg`: the code that switches the foreground to one of
/// the 256 colours.
#[verifier::external_body]
pub(crate) fn set_fg(color: u8) -> (r: String)
    ensures
        r@ == fg_text(color),
{
    crust::style::set_fg(color)
}

/// `crust::style::set_bg`: the code that switches the background to one of
/// the 256 colours.
#[verifier::external_body]
pub(crate) fn set_bg(color: u8) -> (r: String)
    ensures
        r@ == bg_text(color),
{
    crust::style::set_bg(color)
}

/// `crust::style::styled`, for both colours and no attributes: one code for
/// the two colours, the text, and the reset.
#[verifier::external_body]
pub(crate) fn styled(s: &str, fg: Option<u8>, bg: Option<u8>, attrs: &str) -> (r: String)
    requires
        fg is Some,
        bg is Some,
        attrs@.len() == 0,
    ensures
        r@ == two_colours_text(s@, fg->0, bg->0),
{
    crust::style::styled(s, fg, bg, attrs)
}

/// `crust::style::RESET`: the code that ends all colours and attributes.
#[verifier::external_body]
pub(crate) fn reset() -> (r: &'static str)
    ensures
        r@ == "\x1b[0m"@,
{
    crust::style::RESET
}

} // verus!
