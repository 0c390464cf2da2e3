//! The terminal colors of a report, by way of the cybercore crate.
use crate::audit::Severity;
use crate::numeral::decimal;
use vstd::prelude::*;

verus! {

/// Whether `s` is the escape sequence that switches a terminal to a true color.
pub open spec fn is_color(s: Seq<char>) -> bool {
    exists|r: u8, g: u8, b: u8| s == color_code(r, g, b)
}

/// The escape sequence that switches a terminal to a true color.
pub open spec fn color_code(r: u8, g: u8, b: u8) -> Seq<char> {
    "\u{1b}[38;2;"@ + decimal(r as nat) + ";"@ + decimal(g as nat) + ";"@ + decimal(b as nat)
        + "m"@
}

/// `cybercore::palette::acid_green`: the escape sequence of some true color. Which
/// one depends on the theme that the environment names, and is left unsaid.
pub assume_specification[ cybercore::palette::acid_green ]() -> (s: String)
    ensures
        is_color(s@),
;

/// `cybercore::palette::cyan`: as for acid green.
pub assume_specification[ cybercore::palette::cyan ]() -> (s: String)
    ensures
        is_color(s@),
;

/// `cybercore::palette::hot_pink`: as for acid green.
pub assume_specification[ cybercore::palette::hot_pink ]() -> (s: String)
    ensures
        is_color(s@),
;

/// `cybercore::palette::orange`: as for acid green.
pub assume_specification[ cybercore::palette::orange ]() -> (s: String)
    ensures
        is_color(s@),
;

/// `cybercore::palette::red`: as for acid green.
pub assume_specification[ cybercore::palette::red ]() -> (s: String)
    ensures
        is_color(s@),
;

/// `cybercore::palette::RESET`: the escape sequence that ends a color.
#[verifier::external_body]
pub(crate) fn reset() -> (s: &'static str)
    ensures
        s@ == "\u{1b}[0m"@,
{
    cybercore::palette::RESET
}

/// The escape sequences that a report is colored with.
#[derive(Debug, Clone)]
pub struct Palette {
    pub safe: String,
    pub blocked: String,
    pub restricted: String,
    pub allowed: String,
    pub docker: String,
    pub reset: String,
}

/// What a [`Palette`] holds.
pub struct PaletteView {
    pub safe: Seq<char>,
    pub blocked: Seq<char>,
    pub restricted: Seq<char>,
    pub allowed: Seq<char>,
    pub docker: Seq<char>,
    pub reset: Seq<char>,
}

impl View for Palette {
    type V = PaletteView;

    open spec fn view(&self) -> PaletteView {
        PaletteView {
            safe: self.safe@,
            blocked: self.blocked@,
            restricted: self.restricted@,
            allowed: self.allowed@,
            docker: self.docker@,
            reset: self.reset@,
        }
    }
}

/// Whether every color of a palette is one, and its reset ends them.
pub open spec fn is_palette(p: PaletteView) -> bool {
    &&& is_color(p.safe)
    &&& is_color(p.blocked)
    &&& is_color(p.restricted)
    &&& is_color(p.allowed)
    &&& is_color(p.docker)
    &&& p.reset == "\u{1b}[0m"@
}

/// The color of a severity.
pub open spec fn color_of(p: PaletteView, severity: Severity) -> Seq<char> {
    match severity {
        Severity::Safe => p.safe,
        Severity::Blocked => p.blocked,
        Severity::ExposedRestricted => p.restricted,
        Severity::ExposedAllowed => p.allowed,
        Severity::ExposedDocker => p.docker,
    }
}

/// The palette of a report in the colors of a theme: which of them stands for
/// which severity.
pub fn palette_of(
    acid_green: String,
    cyan: String,
    hot_pink: String,
    orange: String,
    red: String,
    reset: String,
) -> (r: Palette)
    ensures
        r@ == (PaletteView {
            safe: acid_green@,
            blocked: cyan@,
            restricted: hot_pink@,
            allowed: orange@,
            docker: red@,
            reset: reset@,
        }),
{
    Palette {
        safe: acid_green,
        blocked: cyan,
        restricted: hot_pink,
        allowed: orange,
        docker: red,
        reset,
    }
}

impl Palette {
    /// The colors of the theme that is in force, each for the severity that
    /// [`palette_of`] gives it.
    pub fn load() -> (r: Palette)
        ensures
            is_palette(r@),
    {
        palette_of(
            cybercore::palette::acid_green(),
            cybercore::palette::cyan(),
            cybercore::palette::hot_pink(),
            cybercore::palette::orange(),
            cybercore::palette::red(),
            reset().to_owned(),
        )
    }

    /// The color of a severity.
    pub fn color(&self, severity: Severity) -> (r: &str)
        ensures
            r@ == color_of(self@, severity),
    {
        match severity {
            Severity::Safe => self.safe.as_str(),
            Severity::Blocked => self.blocked.as_str(),
            Severity::ExposedRestricted => self.restricted.as_str(),
            Severity::ExposedAllowed => self.allowed.as_str(),
            Severity::ExposedDocker => self.docker.as_str(),
        }
    }
}

} // verus!
