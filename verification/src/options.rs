//! The boot options as the kernel keeps them.

use vstd::prelude::*;
use crate::abi::Options;

verus! {

/// The two switches that the loader hands over.
#[derive(Clone, Copy, Debug, PartialEq, Eq, Structural)]
pub struct OptionFlags {
    pub debug: bool,
    pub quiet: bool,
}

/// Takes the switches from the hand-off record: a nonzero byte means on.
pub fn init(opts: Options) -> (r: OptionFlags)
    ensures
        r.debug == (opts.debug != 0),
        r.quiet == (opts.quiet != 0),
{
    OptionFlags { debug: opts.debug != 0, quiet: opts.quiet != 0 }
}

/// Whether debug output is wanted.
pub fn debug_enabled(flags: &OptionFlags) -> (r: bool)
    ensures
        r == flags.debug,
{
    flags.debug
}

/// Whether diagnostics are to be held back.
pub fn quiet_enabled(flags: &OptionFlags) -> (r: bool)
    ensures
        r == flags.quiet,
{
    flags.quiet
}

/// Whether diagnostics are written: debug on and quiet off.
pub fn diagnostics_enabled(flags: &OptionFlags) -> (r: bool)
    ensures
        r == (flags.debug && !flags.quiet),
{
    debug_enabled(flags) && !quiet_enabled(flags)
}

} // verus!
