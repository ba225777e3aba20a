use vstd::prelude::*;

verus! {

/// Debug and verbosity switches threaded into the surrounding driver.
/// They gate extra tracing only and never affect execution results.
#[derive(Debug, Clone, Copy, PartialEq, Eq, Structural)]
pub struct Config {
    pub debug: bool,
    pub verbose_debug: bool,
}

impl Default for Config {
    /// The default configuration: plain debug output on, verbose tracing
    /// off.
    fn default() -> (c: Config)
        ensures
            c.debug == true,
            c.verbose_debug == false,
    {
        Config { debug: true, verbose_debug: false }
    }
}

} // verus!
