//! Severity tags, icons and prefixes for human-readable output.
//!
//! Each helper takes the caller's colour decision as a flag and returns
//! the tag either bare or wrapped in the terminal styling sequences.

use vstd::prelude::*;
use vstd::string::*;
use owo_colors::OwoColorize;

verus! {

/// The text wrapped in a foreground-colour sequence: `ESC [ <code> m`
/// before, `ESC [ 39 m` after.
pub open spec fn fg_wrap(code: Seq<char>, s: Seq<char>) -> Seq<char> {
    seq!['\u{1b}', '['] + code + seq!['m'] + s + seq!['\u{1b}', '[', '3', '9', 'm']
}

/// The text wrapped in the bold sequence: `ESC [ 1 m` before, the reset
/// `ESC [ 0 m` after.
pub open spec fn bold_wrap(s: Seq<char>) -> Seq<char> {
    seq!['\u{1b}', '[', '1', 'm'] + s + seq!['\u{1b}', '[', '0', 'm']
}

/// Red, then bold.
pub open spec fn red_bold(s: Seq<char>) -> Seq<char> {
    bold_wrap(fg_wrap(seq!['3', '1'], s))
}

/// Yellow, then bold.
pub open spec fn yellow_bold(s: Seq<char>) -> Seq<char> {
    bold_wrap(fg_wrap(seq!['3', '3'], s))
}

/// Blue, then bold.
pub open spec fn blue_bold(s: Seq<char>) -> Seq<char> {
    bold_wrap(fg_wrap(seq!['3', '4'], s))
}

/// Relies on `owo_colors::OwoColorize::red` and `bold`: their `Display`
/// impls wrap the text in `ESC[31m`..`ESC[39m`, then `ESC[1m`..`ESC[0m`.
#[verifier::external_body]
fn paint_red_bold(s: &str) -> (r: String)
    ensures
        r@ == red_bold(s@),
{
    s.red().bold().to_string()
}

/// Relies on `owo_colors::OwoColorize::yellow` and `bold`: their
/// `Display` impls wrap the text in `ESC[33m`..`ESC[39m`, then
/// `ESC[1m`..`ESC[0m`.
#[verifier::external_body]
fn paint_yellow_bold(s: &str) -> (r: String)
    ensures
        r@ == yellow_bold(s@),
{
    s.yellow().bold().to_string()
}

/// Relies on `owo_colors::OwoColorize::blue` and `bold`: their `Display`
/// impls wrap the text in `ESC[34m`..`ESC[39m`, then `ESC[1m`..`ESC[0m`.
#[verifier::external_body]
fn paint_blue_bold(s: &str) -> (r: String)
    ensures
        r@ == blue_bold(s@),
{
    s.blue().bold().to_string()
}

/// Relies on `owo_colors::OwoColorize::red`: its `Display` impl wraps
/// the text in `ESC[31m`..`ESC[39m`.
#[verifier::external_body]
fn paint_red(s: &str) -> (r: String)
    ensures
        r@ == fg_wrap(seq!['3', '1'], s@),
{
    s.red().to_string()
}

/// Relies on `owo_colors::OwoColorize::yellow`: its `Display` impl wraps
/// the text in `ESC[33m`..`ESC[39m`.
#[verifier::external_body]
fn paint_yellow(s: &str) -> (r: String)
    ensures
        r@ == fg_wrap(seq!['3', '3'], s@),
{
    s.yellow().to_string()
}

/// Relies on `owo_colors::OwoColorize::blue`: its `Display` impl wraps
/// the text in `ESC[34m`..`ESC[39m`.
#[verifier::external_body]
fn paint_blue(s: &str) -> (r: String)
    ensures
        r@ == fg_wrap(seq!['3', '4'], s@),
{
    s.blue().to_string()
}

/// The error tag, bold red when colours are on.
pub fn tag_error(use_color: bool) -> (r: String)
    ensures
        r@ == if use_color {
            red_bold("\u{27e6}error\u{27e7}"@)
        } else {
            "\u{27e6}error\u{27e7}"@
        },
{
    if use_color {
        paint_red_bold("\u{27e6}error\u{27e7}")
    } else {
        String::from_str("\u{27e6}error\u{27e7}")
    }
}

/// The warning tag, bold yellow when colours are on.
pub fn tag_warn(use_color: bool) -> (r: String)
    ensures
        r@ == if use_color {
            yellow_bold("\u{27e6}warn\u{27e7}"@)
        } else {
            "\u{27e6}warn\u{27e7}"@
        },
{
    if use_color {
        paint_yellow_bold("\u{27e6}warn\u{27e7}")
    } else {
        String::from_str("\u{27e6}warn\u{27e7}")
    }
}

/// The info tag, bold blue when colours are on.
pub fn tag_info(use_color: bool) -> (r: String)
    ensures
        r@ == if use_color {
            blue_bold("\u{27e6}info\u{27e7}"@)
        } else {
            "\u{27e6}info\u{27e7}"@
        },
{
    if use_color {
        paint_blue_bold("\u{27e6}info\u{27e7}")
    } else {
        String::from_str("\u{27e6}info\u{27e7}")
    }
}

/// The error icon, red when colours are on.
pub fn icon_error(use_color: bool) -> (r: String)
    ensures
        r@ == if use_color {
            fg_wrap(seq!['3', '1'], "\u{2716}"@)
        } else {
            "\u{2716}"@
        },
{
    if use_color {
        paint_red("\u{2716}")
    } else {
        String::from_str("\u{2716}")
    }
}

/// The warning icon, yellow when colours are on.
pub fn icon_warn(use_color: bool) -> (r: String)
    ensures
        r@ == if use_color {
            fg_wrap(seq!['3', '3'], "\u{25b2}"@)
        } else {
            "\u{25b2}"@
        },
{
    if use_color {
        paint_yellow("\u{25b2}")
    } else {
        String::from_str("\u{25b2}")
    }
}

/// The info icon, blue when colours are on.
pub fn icon_info(use_color: bool) -> (r: String)
    ensures
        r@ == if use_color {
            fg_wrap(seq!['3', '4'], "\u{25c6}"@)
        } else {
            "\u{25c6}"@
        },
{
    if use_color {
        paint_blue("\u{25c6}")
    } else {
        String::from_str("\u{25c6}")
    }
}

/// The standard error prefix: icon and tag, bold red when coloured.
pub fn error_prefix(use_color: bool) -> (r: String)
    ensures
        r@ == if use_color {
            red_bold("\u{2716} \u{27e6}error\u{27e7}"@)
        } else {
            "\u{2716} \u{27e6}error\u{27e7}"@
        },
{
    if use_color {
        paint_red_bold("\u{2716} \u{27e6}error\u{27e7}")
    } else {
        String::from_str("\u{2716} \u{27e6}error\u{27e7}")
    }
}

/// The standard info prefix, bold blue when coloured.
pub fn info_prefix(use_color: bool) -> (r: String)
    ensures
        r@ == if use_color {
            blue_bold("\u{25c6} \u{27e6}info\u{27e7}"@)
        } else {
            "\u{25c6} \u{27e6}info\u{27e7}"@
        },
{
    if use_color {
        paint_blue_bold("\u{25c6} \u{27e6}info\u{27e7}")
    } else {
        String::from_str("\u{25c6} \u{27e6}info\u{27e7}")
    }
}

/// The standard note prefix, bold blue when coloured.
pub fn note_prefix(use_color: bool) -> (r: String)
    ensures
        r@ == if use_color {
            blue_bold("\u{25c6} \u{27e6}note\u{27e7}"@)
        } else {
            "\u{25c6} \u{27e6}note\u{27e7}"@
        },
{
    if use_color {
        paint_blue_bold("\u{25c6} \u{27e6}note\u{27e7}")
    } else {
        String::from_str("\u{25c6} \u{27e6}note\u{27e7}")
    }
}

/// The standard warning prefix, bold yellow when coloured.
pub fn warn_prefix(use_color: bool) -> (r: String)
    ensures
        r@ == if use_color {
            yellow_bold("\u{25b2} \u{27e6}warn\u{27e7}"@)
        } else {
            "\u{25b2} \u{27e6}warn\u{27e7}"@
        },
{
    if use_color {
        paint_yellow_bold("\u{25b2} \u{27e6}warn\u{27e7}")
    } else {
        String::from_str("\u{25b2} \u{27e6}warn\u{27e7}")
    }
}

/// A two-part preview diff: the new text, then the old, each under its
/// marker line. Nothing when either side is missing.
pub fn build_naive_diff(old: Option<&str>, new: Option<&str>) -> (r: Option<String>)
    ensures
        match (old, new) {
            (Some(o), Some(n)) => r matches Some(d) && d@ == "+++ new\n"@ + n@ + "\n"@
                + "--- old\n"@ + o@,
            _ => r is None,
        },
{
    match (old, new) {
        (Some(o), Some(n)) => {
            let mut v: Vec<char> = Vec::new();
            crate::textutil::push_chars(&mut v, "+++ new\n");
            crate::textutil::push_chars(&mut v, n);
            crate::textutil::push_chars(&mut v, "\n");
            crate::textutil::push_chars(&mut v, "--- old\n");
            crate::textutil::push_chars(&mut v, o);
            proof {
                assert(v@ =~= "+++ new\n"@ + n@ + "\n"@ + "--- old\n"@ + o@);
            }
            Some(crate::textutil::string_from_chars(&v))
        },
        _ => None,
    }
}

} // verus!
