use vstd::prelude::*;
use crate::format::Format;

verus! {

/// The command line: metric flags, the totals flag, the output format, an
/// optional path-list source and the paths to count.
#[derive(Debug)]
pub struct Cli {
    pub bytes: bool,
    pub chars: bool,
    pub words: bool,
    pub lines: bool,
    pub show_totals: bool,
    pub format: Format,
    pub files0_from: Option<String>,
    pub files: Vec<String>,
}

/// The options that steer counting and reporting, without the inputs.
#[derive(Debug, Clone, Copy, PartialEq, Eq, Structural)]
pub struct Options {
    pub bytes: bool,
    pub chars: bool,
    pub words: bool,
    pub lines: bool,
    pub show_totals: bool,
}

impl Options {
    /// Takes the options from the command line. When no metric is
    /// requested, bytes, words and lines are counted (characters are not).
    pub fn from(cli: &Cli) -> (r: Options)
        ensures
            r.show_totals == cli.show_totals,
            !(cli.bytes || cli.chars || cli.words || cli.lines) ==> r.bytes && !r.chars && r.words && r.lines,
            (cli.bytes || cli.chars || cli.words || cli.lines) ==> r.bytes == cli.bytes && r.chars == cli.chars
                && r.words == cli.words && r.lines == cli.lines,
    {
        if !(cli.bytes || cli.chars || cli.words || cli.lines) {
            Options { bytes: true, chars: false, words: true, lines: true, show_totals: cli.show_totals }
        } else {
            Options {
                bytes: cli.bytes,
                chars: cli.chars,
                words: cli.words,
                lines: cli.lines,
                show_totals: cli.show_totals,
            }
        }
    }
}

} // verus!
