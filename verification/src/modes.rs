//! Which counters a run performs, resolved from the command-line flags.

use vstd::prelude::*;

verus! {

/// The counters one run will perform. Frequency reporting excludes the
/// three plain counters.
pub struct CountModes {
    pub lines: bool,
    pub words: bool,
    pub characters: bool,
    pub frequency: bool,
}

/// Resolves the requested flags into the counters to run. No flag at all
/// asks for lines, words and characters together; the frequency flag is
/// opt-in and mutually exclusive, turning every other counter off;
/// otherwise exactly the requested counters run.
pub fn resolve_modes(lines: bool, words: bool, characters: bool, frequency: bool) -> (m:
    CountModes)
    ensures
        !lines && !words && !characters && !frequency ==> m == (CountModes {
            lines: true,
            words: true,
            characters: true,
            frequency: false,
        }),
        frequency ==> m == (CountModes {
            lines: false,
            words: false,
            characters: false,
            frequency: true,
        }),
        (lines || words || characters) && !frequency ==> m == (CountModes {
            lines,
            words,
            characters,
            frequency: false,
        }),
{
    if !characters && !lines && !words && !frequency {
        CountModes { lines: true, words: true, characters: true, frequency: false }
    } else if frequency {
        CountModes { lines: false, words: false, characters: false, frequency: true }
    } else {
        CountModes { lines, words, characters, frequency: false }
    }
}

} // verus!
