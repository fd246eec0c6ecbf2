//! Terminal colors and the color swatch line.

use vstd::prelude::*;
use vstd::string::*;

verus! {

/// The escape sequences used to color the output; all empty when colors are
/// turned off.
pub struct Colors {
    pub reset: &'static str,
    pub blue: &'static str,
    pub cyan: &'static str,
    pub green: &'static str,
    pub yellow: &'static str,
    pub red: &'static str,
    pub magenta: &'static str,
}

impl Colors {
    /// The palette: empty sequences when `is_no_color` holds (the `NO_COLOR`
    /// convention), ANSI color escapes otherwise.
    pub fn new(is_no_color: bool) -> (r: Self)
        ensures
            is_no_color ==> {
                &&& r.reset@ == ""@
                &&& r.blue@ == ""@
                &&& r.cyan@ == ""@
                &&& r.green@ == ""@
                &&& r.yellow@ == ""@
                &&& r.red@ == ""@
                &&& r.magenta@ == ""@
            },
            !is_no_color ==> {
                &&& r.reset@ == "\x1b[0m"@
                &&& r.blue@ == "\x1b[34m"@
                &&& r.cyan@ == "\x1b[36m"@
                &&& r.green@ == "\x1b[32m"@
                &&& r.yellow@ == "\x1b[33m"@
                &&& r.red@ == "\x1b[31m"@
                &&& r.magenta@ == "\x1b[35m"@
            },
    {
        if is_no_color {
            Colors { reset: "", blue: "", cyan: "", green: "", yellow: "", red: "", magenta: "" }
        } else {
            Colors {
                reset: "\x1b[0m",
                blue: "\x1b[34m",
                cyan: "\x1b[36m",
                green: "\x1b[32m",
                yellow: "\x1b[33m",
                red: "\x1b[31m",
                magenta: "\x1b[35m",
            }
        }
    }
}

/// The swatch glyph followed by two spaces.
pub open spec fn dot() -> Seq<char> {
    "\u{f111}"@ + "  "@
}

/// The swatch line: a glyph in each of blue, cyan, green, yellow, red and
/// magenta, then the reset sequence.
pub open spec fn dots_text(c: Colors) -> Seq<char> {
    c.blue@ + dot() + c.cyan@ + dot() + c.green@ + dot() + c.yellow@ + dot() + c.red@ + dot()
        + c.magenta@ + dot() + c.reset@
}

/// Builds the color swatch line.
pub fn print_dots(colors: &Colors) -> (r: String)
    ensures
        r@ == dots_text(*colors),
{
    let glyph = "\u{f111}";
    let mut result = String::new();
    result.append(colors.blue);
    result.append(glyph);
    result.append("  ");
    result.append(colors.cyan);
    result.append(glyph);
    result.append("  ");
    result.append(colors.green);
    result.append(glyph);
    result.append("  ");
    result.append(colors.yellow);
    result.append(glyph);
    result.append("  ");
    result.append(colors.red);
    result.append(glyph);
    result.append("  ");
    result.append(colors.magenta);
    result.append(glyph);
    result.append("  ");
    result.append(colors.reset);
    proof {
        assert(result@ =~= dots_text(*colors));
    }
    result
}

} // verus!
