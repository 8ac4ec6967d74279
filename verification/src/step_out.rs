//! The STEP writer's own decisions: every message the writer (or the STEP
//! library under it) reports reaches the user prefixed with `step: `, and
//! a blade solid needs at least two stations to loft between.
use vstd::prelude::*;

verus! {

/// A STEP-writer error message.
pub fn err(message: &str) -> (r: String)
    ensures
        r@ == "step: "@ + message@,
{
    String::from_str("step: ").concat(message)
}

/// Whether a blade of `n_st` stations can be written as a STEP solid: it
/// needs at least two stations to loft between, else the writer refuses.
pub fn check_blade_stations(n_st: usize) -> (r: Result<(), String>)
    ensures
        n_st >= 2 <==> r is Ok,
        r matches Err(e) ==> e@ == "need at least two blade stations for a STEP solid"@,
{
    if n_st < 2 {
        Err(String::from_str("need at least two blade stations for a STEP solid"))
    } else {
        Ok(())
    }
}

} // verus!
