//! Terminal colours for messages: text wrapped in ANSI escape sequences.

use vstd::prelude::*;
use vstd::string::StringExecFns;

verus! {

/// The escape sequence that switches to red.
pub const RED: &'static str = "\x1b[31m";

/// The escape sequence that switches to green.
pub const GREEN: &'static str = "\x1b[32m";

/// The escape sequence that switches to blue.
pub const BLUE: &'static str = "\x1b[34m";

/// The escape sequence that switches back to the terminal's own colour.
pub const RESET: &'static str = "\x1b[0m";

/// `input` between the escape sequence `colour` and the reset sequence.
pub open spec fn coloured(colour: Seq<char>, input: Seq<char>) -> Seq<char> {
    colour + input + RESET@
}

/// `input` between the escape sequence `colour` and the reset sequence.
fn paint(colour: &str, input: &str) -> (text: String)
    ensures
        text@ == coloured(colour@, input@),
{
    let mut text = String::from_str(colour);
    text.append(input);
    text.append(RESET);
    text
}

/// What starts an error message: the tag `[ ERROR ]` in red, a colon and a space.
pub fn err_prefix() -> (prefix: &'static str)
    ensures
        prefix@ == "\x1b[31m[ ERROR ]\x1b[0m: "@,
{
    "\x1b[31m[ ERROR ]\x1b[0m: "
}

/// What starts a success message: the tag `[ SUCCESS ]` in green, a colon and a
/// space.
pub fn success_prefix() -> (prefix: &'static str)
    ensures
        prefix@ == "\x1b[32m[ SUCCESS ]\x1b[0m: "@,
{
    "\x1b[32m[ SUCCESS ]\x1b[0m: "
}

/// `input` in red.
pub fn red(input: &str) -> (text: String)
    ensures
        text@ == coloured(RED@, input@),
{
    paint(RED, input)
}

/// `input` in blue.
pub fn blue(input: &str) -> (text: String)
    ensures
        text@ == coloured(BLUE@, input@),
{
    paint(BLUE, input)
}

/// `input` in green.
pub fn green(input: &str) -> (text: String)
    ensures
        text@ == coloured(GREEN@, input@),
{
    paint(GREEN, input)
}

} // verus!
