//! Run-level decisions of a design: which design loop runs, which
//! operating point it converges onto, where the STEP document goes, how
//! many stations converged, and what a design reports when its
//! mechanically sized re-design could not be built.
use vstd::prelude::*;

verus! {

/// Default number of control points of the smooth spline chord.
pub fn default_chord_spline_n() -> (r: usize)
    ensures
        r == 3,
{
    3
}

/// The design loop a run converges with.
#[derive(PartialEq, Eq, Structural, Clone, Copy, Debug)]
pub enum DesignLoop {
    /// The blade-element momentum loop.
    Bem,
    /// The coupled vortex lifting-line loop.
    LiftingLine,
}

/// The loop the flags select: the lifting line wins when both are set.
pub open spec fn selected_loop(bem: bool, lifting_line: bool) -> Option<DesignLoop> {
    if lifting_line {
        Some(DesignLoop::LiftingLine)
    } else if bem {
        Some(DesignLoop::Bem)
    } else {
        None
    }
}

/// The loop a command-line run uses, or the error it stops with when no
/// loop is selected.
pub fn cli_design_loop(bem: bool, lifting_line: bool) -> (r: Result<DesignLoop, String>)
    ensures
        selected_loop(bem, lifting_line) matches Some(l) ==> (r matches Ok(x) && x == l),
        selected_loop(bem, lifting_line) is None ==> (r matches Err(e) && e@
            == "select a design loop (set `bem` or `lifting_line`, or pass --bem / --lifting-line)"@),
{
    if lifting_line {
        Ok(DesignLoop::LiftingLine)
    } else if bem {
        Ok(DesignLoop::Bem)
    } else {
        Err(
            String::from_str(
                "select a design loop (set `bem` or `lifting_line`, or pass --bem / --lifting-line)",
            ),
        )
    }
}

/// The loop a session (browser) design uses: it also refuses a request
/// that names two foil families at once.
pub fn session_design_loop(bem: bool, lifting_line: bool, cst: bool, arad: bool) -> (r: Result<
    DesignLoop,
    String,
>)
    ensures
        selected_loop(bem, lifting_line) is None ==> (r matches Err(e) && e@
            == "select a design loop (set `bem` or `lifting_line` in the design JSON)"@),
        selected_loop(bem, lifting_line) is Some && cst && arad ==> (r matches Err(e) && e@
            == "choose one foil family (naca, cst or arad)"@),
        !(cst && arad) ==> (selected_loop(bem, lifting_line) matches Some(l) ==> (r matches Ok(x)
            && x == l)),
{
    if !bem && !lifting_line {
        return Err(
            String::from_str("select a design loop (set `bem` or `lifting_line` in the design JSON)"),
        );
    }
    if cst && arad {
        return Err(String::from_str("choose one foil family (naca, cst or arad)"));
    }
    if lifting_line {
        Ok(DesignLoop::LiftingLine)
    } else {
        Ok(DesignLoop::Bem)
    }
}

/// Where the STEP document is written: the explicit file when one is
/// given, else `<dir>/<name>.step`.
pub open spec fn step_path_spec(dir: Seq<char>, name: Seq<char>, step_file: Seq<char>) -> Seq<
    char,
> {
    if step_file.len() == 0 {
        dir + "/"@ + name + ".step"@
    } else {
        step_file
    }
}

/// The output STEP path of a run.
pub fn step_filename(dir: &str, name: &str, step_file: &str) -> (r: String)
    ensures
        r@ == step_path_spec(dir@, name@, step_file@),
{
    if step_file.is_empty() {
        String::from_str(dir).concat("/").concat(name).concat(".step")
    } else {
        String::from_str(step_file)
    }
}

/// How many entries of a sequence of flags are set.
pub open spec fn count_set(s: Seq<bool>) -> nat
    decreases s.len(),
{
    if s.len() == 0 {
        0
    } else {
        count_set(s.drop_last()) + if s.last() {
            1nat
        } else {
            0nat
        }
    }
}

/// The converged-station coverage of a design: how many stations reached a
/// converged state, out of how many.
pub fn station_coverage(converged: &Vec<bool>) -> (r: (usize, usize))
    ensures
        r.0 == count_set(converged@),
        r.1 == converged@.len(),
{
    let mut n: usize = 0;
    let mut i: usize = 0;
    while i < converged.len()
        invariant
            i <= converged@.len(),
            n == count_set(converged@.take(i as int)),
            n <= i,
        decreases converged@.len() - i,
    {
        assert(converged@.take(i as int + 1).drop_last() == converged@.take(i as int));
        if converged[i] {
            n = n + 1;
        }
        i = i + 1;
    }
    assert(converged@.take(i as int) == converged@);
    (n, converged.len())
}

/// Whether the mechanically sized re-design replaces the first design: it
/// does when it absorbed some torque or reached its operating point
/// without a warning.
pub fn keep_mechanical_redesign(absorbed_torque: bool, warned: bool) -> (r: bool)
    ensures
        r == (absorbed_torque || !warned),
{
    absorbed_torque || !warned
}

/// The note a design carries when its mechanical re-design was not
/// achievable and the geometric thickness law was kept.
pub open spec fn mechanical_note() -> Seq<char> {
    "the mechanical-thickness re-design at this operating point was not achievable; this design uses the geometric thickness law"@
}

/// The warning of a design that kept the geometric law: the note alone, or
/// the first design's warning with the note in brackets behind it.
pub open spec fn kept_geometric_warning(first: Seq<char>) -> Seq<char> {
    if first.len() == 0 {
        mechanical_note()
    } else {
        first + " ("@ + mechanical_note() + ")"@
    }
}

/// The warning reported when the mechanical re-design was dropped, given
/// the first design's own warning, if any.
pub fn mechanical_fallback_warning(first: Option<String>) -> (r: String)
    ensures
        r@ == kept_geometric_warning(
            match first {
                Some(w) => w@,
                None => Seq::empty(),
            },
        ),
{
    let base = match first {
        Some(w) => w,
        None => String::new(),
    };
    let note = "the mechanical-thickness re-design at this operating point was not achievable; this design uses the geometric thickness law";
    if base.as_str().is_empty() {
        String::from_str(note)
    } else {
        base.concat(" (").concat(note).concat(")")
    }
}

/// The operating point the design file pins: when it gives both the
/// torque and the speed (an engine's rated point), the design runs there;
/// one without the other is ignored and the motor model decides.
pub fn specified_operating_point<F: Copy>(torque: Option<F>, rpm: Option<F>) -> (r: Option<(F, F)>)
    ensures
        r == (match (torque, rpm) {
            (Some(q), Some(n)) => Some((q, n)),
            _ => None,
        }),
{
    match (torque, rpm) {
        (Some(q), Some(n)) => Some((q, n)),
        _ => None,
    }
}

} // verus!
