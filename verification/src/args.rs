//! Validation of the command-line argument list.

use vstd::prelude::*;

verus! {

/// The number of leading arguments every run needs: the program name,
/// the source path, the variables path and the encoding mode.
pub const REQUIRED_ARGS: usize = 4;

/// Confirms that the argument list holds at least the program name, the
/// source path, the variables path and the encoding mode. A destination
/// path beyond those is optional.
pub fn check_args(args: &Vec<String>) -> (ok: bool)
    ensures
        ok == (args@.len() >= REQUIRED_ARGS),
{
    args.len() >= REQUIRED_ARGS
}

} // verus!
