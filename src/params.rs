//! Search parameters.

use vstd::prelude::*;

verus! {

/// Parameters of the search.
#[derive(Clone, Copy, Debug, PartialEq, Eq, Structural)]
pub struct Params {
    /// The exploration constant of the PUCT rule, in thousandths.
    pub c_puct: u64,
    /// Whether to print search info.
    pub do_stdout: bool,
}

impl Default for Params {
    fn default() -> (r: Self)
        ensures
            r.c_puct == 2500,
            !r.do_stdout,
    {
        Self { c_puct: 2500, do_stdout: false }
    }
}

impl Params {
    /// The same parameters with printing switched as given.
    pub fn with_stdout(self, do_stdout: bool) -> (r: Self)
        ensures
            r == (Params { do_stdout, ..self }),
    {
        Self { do_stdout, ..self }
    }
}

} // verus!
