use vstd::prelude::*;

verus! {

/// Settings of the target: on macOS function symbols take a leading `_`.
/// Whether the host is macOS is found out by the program that runs the
/// compiler and handed in here.
#[derive(Debug, Clone, Copy, PartialEq, Eq, Structural)]
pub struct Config {
    pub mac: bool,
}

} // verus!
