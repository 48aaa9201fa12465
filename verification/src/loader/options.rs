//! The boot options on the loader's command line: words between white
//! space, of which `debug` and `quiet` mean something.

use vstd::prelude::*;
use vstd::std_specs::convert::FromSpecImpl;
use crate::abi::Options;
use crate::loader::firmware::{ucs2_text, ucs2_to_utf8, utf8_of};

verus! {

/// Most bytes of the command line, in UTF-8, that the loader looks at.
pub const COMMAND_LINE_CAP: usize = 256;

/// The two options as the loader keeps them.
#[derive(Clone, Copy, Debug, PartialEq, Eq, Structural)]
pub struct BootOptions {
    pub debug: bool,
    pub quiet: bool,
}

impl Default for BootOptions {
    fn default() -> (r: Self)
        ensures
            r == (BootOptions { debug: false, quiet: false }),
    {
        BootOptions { debug: false, quiet: false }
    }
}

/// The options as the hand-off record holds them: one for on, zero for off.
pub open spec fn options_record(opts: BootOptions) -> Options {
    Options {
        debug: if opts.debug {
            1
        } else {
            0
        },
        quiet: if opts.quiet {
            1
        } else {
            0
        },
    }
}

impl From<BootOptions> for Options {
    fn from(opts: BootOptions) -> (r: Self) {
        Options {
            debug: if opts.debug {
                1
            } else {
                0
            },
            quiet: if opts.quiet {
                1
            } else {
                0
            },
        }
    }
}

impl FromSpecImpl<BootOptions> for Options {
    open spec fn obeys_from_spec() -> bool {
        true
    }

    open spec fn from_spec(opts: BootOptions) -> Self {
        options_record(opts)
    }
}

/// Puts the options into the form of the hand-off record.
pub fn options_into_abi(opts: BootOptions) -> (r: Options)
    ensures
        r == options_record(opts),
{
    Options::from(opts)
}

/// Whether the code unit is white space.
pub open spec fn is_space(unit: u16) -> bool {
    ||| 0x09 <= unit <= 0x0d
    ||| unit == 0x20
    ||| unit == 0x85
    ||| unit == 0xa0
    ||| unit == 0x1680
    ||| 0x2000 <= unit <= 0x200a
    ||| unit == 0x2028
    ||| unit == 0x2029
    ||| unit == 0x202f
    ||| unit == 0x205f
    ||| unit == 0x3000
}

/// The word `debug`.
pub open spec fn debug_word() -> Seq<u16> {
    seq![0x64u16, 0x65u16, 0x62u16, 0x75u16, 0x67u16]
}

/// The word `quiet`.
pub open spec fn quiet_word() -> Seq<u16> {
    seq![0x71u16, 0x75u16, 0x69u16, 0x65u16, 0x74u16]
}

/// Whether `word` stands at index `at` of `text` as a word of its own:
/// with white space or nothing before it and behind it.
pub open spec fn word_at(text: Seq<u16>, at: int, word: Seq<u16>) -> bool {
    &&& 0 <= at
    &&& at + word.len() <= text.len()
    &&& text.subrange(at, at + word.len()) == word
    &&& at == 0 || is_space(text[at - 1])
    &&& at + word.len() == text.len() || is_space(text[at + word.len()])
}

/// Whether `word` stands somewhere in `text` as a word of its own.
pub open spec fn has_word(text: Seq<u16>, word: Seq<u16>) -> bool {
    exists|at: int| word_at(text, at, word)
}

/// The options that a command line asks for. A command line that is no
/// UCS-2 text, or longer in UTF-8 than the loader looks at, asks for
/// nothing.
pub open spec fn options_of(units: Seq<u16>) -> BootOptions {
    if !ucs2_text(units) || utf8_of(units.drop_last()).len() > COMMAND_LINE_CAP {
        BootOptions { debug: false, quiet: false }
    } else {
        BootOptions {
            debug: has_word(units.drop_last(), debug_word()),
            quiet: has_word(units.drop_last(), quiet_word()),
        }
    }
}

/// Tells whether the code unit is white space.
pub fn unit_is_space(unit: u16) -> (r: bool)
    ensures
        r == is_space(unit),
{
    (unit >= 0x09 && unit <= 0x0d) || unit == 0x20 || unit == 0x85 || unit == 0xa0 || unit
        == 0x1680 || (unit >= 0x2000 && unit <= 0x200a) || unit == 0x2028 || unit == 0x2029
        || unit == 0x202f || unit == 0x205f || unit == 0x3000
}

/// Tells whether the five code units of `word` stand at index `at` of the
/// first `len` code units of `text` as a word of their own.
fn stands_at(text: &[u16], len: usize, at: usize, word: &[u16; 5]) -> (r: bool)
    requires
        len <= text@.len(),
        at < len,
    ensures
        r == word_at(text@.take(len as int), at as int, word@),
{
    let ghost seen = text@.take(len as int);
    if at > 0 && !unit_is_space(text[at - 1]) {
        return false;
    }
    if len - at < 5 {
        return false;
    }
    if at + 5 < len && !unit_is_space(text[at + 5]) {
        return false;
    }
    let same: bool = text[at] == word[0] && text[at + 1] == word[1] && text[at + 2] == word[2]
        && text[at + 3] == word[3] && text[at + 4] == word[4];
    proof {
        let part = seen.subrange(at as int, at + 5);
        if same {
            assert(part =~= word@);
        } else {
            if part == word@ {
                assert(part[0] == word@[0] && part[1] == word@[1] && part[2] == word@[2]
                    && part[3] == word@[3] && part[4] == word@[4]);
            }
        }
    }
    same
}

/// Reads the options off a command line, given as UCS-2 text with its
/// terminator.
pub fn get_boot_options(units: &[u16]) -> (r: BootOptions)
    ensures
        r == options_of(units@),
{
    let utf8 = match ucs2_to_utf8(units) {
        None => {
            return BootOptions::default();
        },
        Some(utf8) => utf8,
    };
    if utf8.len() > COMMAND_LINE_CAP {
        return BootOptions::default();
    }
    let len: usize = units.len() - 1;
    let debug: [u16; 5] = [0x64, 0x65, 0x62, 0x75, 0x67];
    let quiet: [u16; 5] = [0x71, 0x75, 0x69, 0x65, 0x74];
    let ghost text = units@.drop_last();
    proof {
        assert(units@.take(len as int) =~= text);
        assert(debug@ =~= debug_word());
        assert(quiet@ =~= quiet_word());
    }
    let mut options = BootOptions::default();
    let mut at: usize = 0;
    while at < len
        invariant
            at <= len,
            len == units@.len() - 1,
            text == units@.take(len as int),
            debug@ == debug_word(),
            quiet@ == quiet_word(),
            options.debug == exists|a: int| 0 <= a < at && word_at(text, a, debug_word()),
            options.quiet == exists|a: int| 0 <= a < at && word_at(text, a, quiet_word()),
        decreases len - at,
    {
        let found_debug: bool = stands_at(units, len, at, &debug);
        let found_quiet: bool = stands_at(units, len, at, &quiet);
        if found_debug {
            options.debug = true;
        }
        if found_quiet {
            options.quiet = true;
        }
        at = at + 1;
    }
    proof {
        assert(has_word(text, debug_word()) == options.debug) by {
            if has_word(text, debug_word()) {
                let a = choose|a: int| word_at(text, a, debug_word());
                assert(0 <= a < len);
            }
        }
        assert(has_word(text, quiet_word()) == options.quiet) by {
            if has_word(text, quiet_word()) {
                let a = choose|a: int| word_at(text, a, quiet_word());
                assert(0 <= a < len);
            }
        }
    }
    options
}

} // verus!
