//! The boot flags: the same two switches as the boot options, all off
//! where the command line says nothing.

use vstd::prelude::*;
use crate::loader::options::{get_boot_options, options_of};

verus! {

/// The two switches of the command line.
#[derive(Clone, Copy, Debug, Default, PartialEq, Eq, Structural)]
pub struct BootFlags {
    pub debug: bool,
    pub quiet: bool,
}

/// Reads the flags off a command line, given as UCS-2 text with its
/// terminator.
pub fn get_boot_flags(units: &[u16]) -> (r: BootFlags)
    ensures
        r.debug == options_of(units@).debug,
        r.quiet == options_of(units@).quiet,
{
    let options = get_boot_options(units);
    BootFlags { debug: options.debug, quiet: options.quiet }
}

} // verus!
