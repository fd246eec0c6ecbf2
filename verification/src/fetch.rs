//! The fetch output: the logo beside the labelled fields.

use vstd::prelude::*;
use vstd::string::*;
use vstd::utf8::encode_utf8;
use crate::colors::Colors;

verus! {

/// The fields shown by the fetch, already rendered.
pub struct Fields {
    pub user_info: String,
    pub os_name: String,
    pub kernel_version: String,
    pub shell: String,
    pub uptime: String,
    pub desktop: String,
    pub memory_usage: String,
    pub storage: String,
    pub colors: String,
}

/// The size of the output buffer, in bytes.
pub const OUTPUT_CAPACITY: usize = 2048;

/// The `user_info` row of the fetch, showing `value`.
pub open spec fn logo_user_row(c: Colors, value: Seq<char>) -> Seq<char> {
    c.blue@
        + "     \u{259f}\u{2588}\u{2596}    "@
        + c.cyan@
        + "\u{259d}\u{2588}\u{2599} \u{2597}\u{2588}\u{259b}         "@
        + value
        + " ~"@
        + c.reset@
}

/// The `os_name` row of the fetch, showing `value`.
pub open spec fn system_row(c: Colors, value: Seq<char>) -> Seq<char> {
    c.blue@
        + "  \u{2597}\u{2584}\u{2584}\u{259f}\u{2588}\u{2588}\u{2584}\u{2584}\u{2584}\u{2584}\u{2584}"@
        + c.cyan@
        + "\u{259d}\u{2588}\u{2599}\u{2588}\u{259b}  "@
        + c.blue@
        + "\u{2596}       "@
        + c.cyan@
        + "\u{f313}  "@
        + c.blue@
        + "System"@
        + c.reset@
        + "       \u{e621} "@
        + value
}

/// The `kernel_version` row of the fetch, showing `value`.
pub open spec fn kernel_row(c: Colors, value: Seq<char>) -> Seq<char> {
    c.blue@
        + "  \u{2580}\u{2580}\u{2580}\u{2580}\u{2580}\u{2580}\u{2580}\u{2580}\u{2580}\u{2580}\u{2580}\u{2598}"@
        + c.cyan@
        + "\u{259d}\u{2588}\u{2588}  "@
        + c.blue@
        + "\u{259f}\u{2588}\u{2596}      "@
        + c.cyan@
        + "\u{e712}  "@
        + c.blue@
        + "Kernel"@
        + c.reset@
        + "       \u{e621} "@
        + value
}

/// The `shell` row of the fetch, showing `value`.
pub open spec fn shell_row(c: Colors, value: Seq<char>) -> Seq<char> {
    c.cyan@
        + "     \u{259f}\u{2588}\u{259b}       "@
        + c.cyan@
        + "\u{259d}\u{2588}\u{2598}"@
        + c.blue@
        + "\u{259f}\u{2588}\u{259b}       "@
        + c.cyan@
        + "\u{e795}  "@
        + c.blue@
        + "Shell"@
        + c.reset@
        + "        \u{e621} "@
        + value
}

/// The `uptime` row of the fetch, showing `value`.
pub open spec fn uptime_row(c: Colors, value: Seq<char>) -> Seq<char> {
    c.cyan@
        + "\u{259f}\u{2588}\u{2588}\u{2588}\u{2588}\u{2588}\u{259b}          "@
        + c.blue@
        + "\u{259f}\u{2588}\u{2588}\u{2588}\u{2588}\u{2588}\u{259b}    "@
        + c.cyan@
        + "\u{f017}  "@
        + c.blue@
        + "Uptime"@
        + c.reset@
        + "       \u{e621} "@
        + value
}

/// The `desktop` row of the fetch, showing `value`.
pub open spec fn desktop_row(c: Colors, value: Seq<char>) -> Seq<char> {
    c.cyan@
        + "   \u{259f}\u{2588}\u{259b}"@
        + c.blue@
        + "\u{2597}\u{2588}\u{2596}       "@
        + c.blue@
        + "\u{259f}\u{2588}\u{259b}         "@
        + c.cyan@
        + "\u{f2d2}  "@
        + c.blue@
        + "Desktop"@
        + c.reset@
        + "      \u{e621} "@
        + value
}

/// The `memory_usage` row of the fetch, showing `value`.
pub open spec fn memory_row(c: Colors, value: Seq<char>) -> Seq<char> {
    c.cyan@
        + "  \u{259d}\u{2588}\u{259b}  "@
        + c.blue@
        + "\u{2588}\u{2588}\u{2596}"@
        + c.cyan@
        + "\u{2597}\u{2584}\u{2584}\u{2584}\u{2584}\u{2584}\u{2584}\u{2584}\u{2584}\u{2584}\u{2584}\u{2584}      "@
        + c.cyan@
        + "\u{f035b}  "@
        + c.blue@
        + "Memory"@
        + c.reset@
        + "       \u{e621} "@
        + value
}

/// The `storage` row of the fetch, showing `value`.
pub open spec fn storage_row(c: Colors, value: Seq<char>) -> Seq<char> {
    c.cyan@
        + "   \u{259d}  "@
        + c.blue@
        + "\u{259f}\u{2588}\u{259c}\u{2588}\u{2596}"@
        + c.cyan@
        + "\u{2580}\u{2580}\u{2580}\u{2580}\u{2580}\u{2588}\u{2588}\u{259b}\u{2580}\u{2580}\u{2598}      "@
        + c.cyan@
        + "\u{f194e}  "@
        + c.blue@
        + "Storage (/)"@
        + c.reset@
        + "  \u{e621} "@
        + value
}

/// The `colors` row of the fetch, showing `value`.
pub open spec fn colors_row(c: Colors, value: Seq<char>) -> Seq<char> {
    c.blue@
        + "     \u{259f}\u{2588}\u{2598} \u{259c}\u{2588}\u{2596}    "@
        + c.cyan@
        + "\u{259d}\u{2588}\u{259b}         "@
        + c.cyan@
        + "\u{e22b}  "@
        + c.blue@
        + "Colors"@
        + c.reset@
        + "       \u{e621} "@
        + value
}

fn append_logo_user_row(s: &mut String, c: &Colors, value: &str)
    ensures
        final(s)@ == old(s)@ + logo_user_row(*c, value@),
{
    s.append(c.blue);
    s.append("     \u{259f}\u{2588}\u{2596}    ");
    s.append(c.cyan);
    s.append("\u{259d}\u{2588}\u{2599} \u{2597}\u{2588}\u{259b}         ");
    s.append(value);
    s.append(" ~");
    s.append(c.reset);
    proof {
        assert(s@ =~= old(s)@ + logo_user_row(*c, value@));
    }
}

fn append_system_row(s: &mut String, c: &Colors, value: &str)
    ensures
        final(s)@ == old(s)@ + system_row(*c, value@),
{
    s.append(c.blue);
    s.append("  \u{2597}\u{2584}\u{2584}\u{259f}\u{2588}\u{2588}\u{2584}\u{2584}\u{2584}\u{2584}\u{2584}");
    s.append(c.cyan);
    s.append("\u{259d}\u{2588}\u{2599}\u{2588}\u{259b}  ");
    s.append(c.blue);
    s.append("\u{2596}       ");
    s.append(c.cyan);
    s.append("\u{f313}  ");
    s.append(c.blue);
    s.append("System");
    s.append(c.reset);
    s.append("       \u{e621} ");
    s.append(value);
    proof {
        assert(s@ =~= old(s)@ + system_row(*c, value@));
    }
}

fn append_kernel_row(s: &mut String, c: &Colors, value: &str)
    ensures
        final(s)@ == old(s)@ + kernel_row(*c, value@),
{
    s.append(c.blue);
    s.append("  \u{2580}\u{2580}\u{2580}\u{2580}\u{2580}\u{2580}\u{2580}\u{2580}\u{2580}\u{2580}\u{2580}\u{2598}");
    s.append(c.cyan);
    s.append("\u{259d}\u{2588}\u{2588}  ");
    s.append(c.blue);
    s.append("\u{259f}\u{2588}\u{2596}      ");
    s.append(c.cyan);
    s.append("\u{e712}  ");
    s.append(c.blue);
    s.append("Kernel");
    s.append(c.reset);
    s.append("       \u{e621} ");
    s.append(value);
    proof {
        assert(s@ =~= old(s)@ + kernel_row(*c, value@));
    }
}

fn append_shell_row(s: &mut String, c: &Colors, value: &str)
    ensures
        final(s)@ == old(s)@ + shell_row(*c, value@),
{
    s.append(c.cyan);
    s.append("     \u{259f}\u{2588}\u{259b}       ");
    s.append(c.cyan);
    s.append("\u{259d}\u{2588}\u{2598}");
    s.append(c.blue);
    s.append("\u{259f}\u{2588}\u{259b}       ");
    s.append(c.cyan);
    s.append("\u{e795}  ");
    s.append(c.blue);
    s.append("Shell");
    s.append(c.reset);
    s.append("        \u{e621} ");
    s.append(value);
    proof {
        assert(s@ =~= old(s)@ + shell_row(*c, value@));
    }
}

fn append_uptime_row(s: &mut String, c: &Colors, value: &str)
    ensures
        final(s)@ == old(s)@ + uptime_row(*c, value@),
{
    s.append(c.cyan);
    s.append("\u{259f}\u{2588}\u{2588}\u{2588}\u{2588}\u{2588}\u{259b}          ");
    s.append(c.blue);
    s.append("\u{259f}\u{2588}\u{2588}\u{2588}\u{2588}\u{2588}\u{259b}    ");
    s.append(c.cyan);
    s.append("\u{f017}  ");
    s.append(c.blue);
    s.append("Uptime");
    s.append(c.reset);
    s.append("       \u{e621} ");
    s.append(value);
    proof {
        assert(s@ =~= old(s)@ + uptime_row(*c, value@));
    }
}

fn append_desktop_row(s: &mut String, c: &Colors, value: &str)
    ensures
        final(s)@ == old(s)@ + desktop_row(*c, value@),
{
    s.append(c.cyan);
    s.append("   \u{259f}\u{2588}\u{259b}");
    s.append(c.blue);
    s.append("\u{2597}\u{2588}\u{2596}       ");
    s.append(c.blue);
    s.append("\u{259f}\u{2588}\u{259b}         ");
    s.append(c.cyan);
    s.append("\u{f2d2}  ");
    s.append(c.blue);
    s.append("Desktop");
    s.append(c.reset);
    s.append("      \u{e621} ");
    s.append(value);
    proof {
        assert(s@ =~= old(s)@ + desktop_row(*c, value@));
    }
}

fn append_memory_row(s: &mut String, c: &Colors, value: &str)
    ensures
        final(s)@ == old(s)@ + memory_row(*c, value@),
{
    s.append(c.cyan);
    s.append("  \u{259d}\u{2588}\u{259b}  ");
    s.append(c.blue);
    s.append("\u{2588}\u{2588}\u{2596}");
    s.append(c.cyan);
    s.append("\u{2597}\u{2584}\u{2584}\u{2584}\u{2584}\u{2584}\u{2584}\u{2584}\u{2584}\u{2584}\u{2584}\u{2584}      ");
    s.append(c.cyan);
    s.append("\u{f035b}  ");
    s.append(c.blue);
    s.append("Memory");
    s.append(c.reset);
    s.append("       \u{e621} ");
    s.append(value);
    proof {
        assert(s@ =~= old(s)@ + memory_row(*c, value@));
    }
}

fn append_storage_row(s: &mut String, c: &Colors, value: &str)
    ensures
        final(s)@ == old(s)@ + storage_row(*c, value@),
{
    s.append(c.cyan);
    s.append("   \u{259d}  ");
    s.append(c.blue);
    s.append("\u{259f}\u{2588}\u{259c}\u{2588}\u{2596}");
    s.append(c.cyan);
    s.append("\u{2580}\u{2580}\u{2580}\u{2580}\u{2580}\u{2588}\u{2588}\u{259b}\u{2580}\u{2580}\u{2598}      ");
    s.append(c.cyan);
    s.append("\u{f194e}  ");
    s.append(c.blue);
    s.append("Storage (/)");
    s.append(c.reset);
    s.append("  \u{e621} ");
    s.append(value);
    proof {
        assert(s@ =~= old(s)@ + storage_row(*c, value@));
    }
}

fn append_colors_row(s: &mut String, c: &Colors, value: &str)
    ensures
        final(s)@ == old(s)@ + colors_row(*c, value@),
{
    s.append(c.blue);
    s.append("     \u{259f}\u{2588}\u{2598} \u{259c}\u{2588}\u{2596}    ");
    s.append(c.cyan);
    s.append("\u{259d}\u{2588}\u{259b}         ");
    s.append(c.cyan);
    s.append("\u{e22b}  ");
    s.append(c.blue);
    s.append("Colors");
    s.append(c.reset);
    s.append("       \u{e621} ");
    s.append(value);
    proof {
        assert(s@ =~= old(s)@ + colors_row(*c, value@));
    }
}

/// The whole fetch text for `f` in the palette `c`.
pub open spec fn fetch_text(f: Fields, c: Colors) -> Seq<char> {
    "\n    "@ + logo_user_row(c, f.user_info@)
        + "\n    "@ + system_row(c, f.os_name@)
        + "\n    "@ + kernel_row(c, f.kernel_version@)
        + "\n    "@ + shell_row(c, f.shell@)
        + "\n    "@ + uptime_row(c, f.uptime@)
        + "\n    "@ + desktop_row(c, f.desktop@)
        + "\n    "@ + memory_row(c, f.memory_usage@)
        + "\n    "@ + storage_row(c, f.storage@)
        + "\n    "@ + colors_row(c, f.colors@)
        + "\n\n"@
}

/// Renders the fetch. The text goes to a fixed buffer of `OUTPUT_CAPACITY`
/// bytes, so a text whose UTF-8 encoding is longer gives `None`.
pub fn render_system_info(fields: &Fields, colors: &Colors) -> (r: Option<String>)
    ensures
        r is Some <==> encode_utf8(fetch_text(*fields, *colors)).len() <= OUTPUT_CAPACITY,
        r matches Some(s) ==> s@ == fetch_text(*fields, *colors),
{
    let mut s = String::new();
    s.append("\n    ");
    append_logo_user_row(&mut s, colors, fields.user_info.as_str());
    s.append("\n    ");
    append_system_row(&mut s, colors, fields.os_name.as_str());
    s.append("\n    ");
    append_kernel_row(&mut s, colors, fields.kernel_version.as_str());
    s.append("\n    ");
    append_shell_row(&mut s, colors, fields.shell.as_str());
    s.append("\n    ");
    append_uptime_row(&mut s, colors, fields.uptime.as_str());
    s.append("\n    ");
    append_desktop_row(&mut s, colors, fields.desktop.as_str());
    s.append("\n    ");
    append_memory_row(&mut s, colors, fields.memory_usage.as_str());
    s.append("\n    ");
    append_storage_row(&mut s, colors, fields.storage.as_str());
    s.append("\n    ");
    append_colors_row(&mut s, colors, fields.colors.as_str());
    s.append("\n\n");
    proof {
        assert(s@ =~= fetch_text(*fields, *colors));
    }
    let len: usize = s.as_str().as_bytes().len();
    if len <= OUTPUT_CAPACITY {
        Some(s)
    } else {
        None
    }
}

} // verus!
