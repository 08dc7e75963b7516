use vstd::prelude::*;

verus! {

/// The verbosity levels of the crate's logging facade, from most to least
/// chatty. Wiring a level into a global logger is I/O and lives outside the
/// verified library.
#[derive(Clone, Copy, Debug, PartialEq, Eq, Structural)]
pub enum LogLevel {
    Trace,
    Debug,
    Info,
    Warn,
    Error,
}

} // verus!
