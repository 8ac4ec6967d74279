//! Optional design trace log (the CLI's `--log <file>`).
//!
//! The design loops print a convergence trace to the console; when a trace
//! file is open, every trace line is mirrored to it as well.  Nothing is
//! mirrored while no trace file is open.  The sink here holds the
//! open/closed state and decides what is appended; the host owns the file.
use vstd::prelude::*;

verus! {

/// A call that can change the sink (a write is a call that leaves it).
#[derive(PartialEq, Eq, Structural, Clone, Copy, Debug)]
pub enum SinkCall {
    Open,
    Close,
    Write,
}

/// Whether the sink is open after `c`, from `open`: open after an open,
/// closed after a close; a write leaves it as it was.
pub open spec fn after_call(open: bool, c: SinkCall) -> bool {
    match c {
        SinkCall::Open => true,
        SinkCall::Close => false,
        SinkCall::Write => open,
    }
}

/// Whether the sink is open after the calls `cs`, from `open`.
pub open spec fn after_calls(open: bool, cs: Seq<SinkCall>) -> bool
    decreases cs.len(),
{
    if cs.len() == 0 {
        open
    } else {
        after_call(after_calls(open, cs.drop_last()), cs.last())
    }
}

/// Index of the last open or close among `cs`, or -1 when there is none.
pub open spec fn last_change(cs: Seq<SinkCall>) -> int
    decreases cs.len(),
{
    if cs.len() == 0 {
        -1
    } else if cs.last() == SinkCall::Write {
        last_change(cs.drop_last())
    } else {
        cs.len() - 1
    }
}

/// A sink that starts closed is open after any sequence of opens, closes
/// and writes exactly when the last open or close among them was an open.
pub proof fn sink_open_iff_last_change_was_open(cs: Seq<SinkCall>)
    ensures
        -1 <= last_change(cs) < cs.len(),
        after_calls(false, cs) == (last_change(cs) >= 0 && cs[last_change(cs)] == SinkCall::Open),
    decreases cs.len(),
{
    if cs.len() > 0 {
        let p = cs.drop_last();
        sink_open_iff_last_change_was_open(p);
        if cs.last() == SinkCall::Write && last_change(p) >= 0 {
            assert(cs[last_change(p)] == p[last_change(p)]);
        }
    }
}

/// The trace sink: whether a trace file is open.
pub struct TraceSink {
    open: bool,
}

impl TraceSink {
    pub closed spec fn is_open_spec(&self) -> bool {
        self.open
    }

    /// A closed sink.
    pub fn new() -> (s: Self)
        ensures
            !s.is_open_spec(),
            s.is_open_spec() == after_calls(false, Seq::<SinkCall>::empty()),
    {
        TraceSink { open: false }
    }

    /// Record that the host opened (created or truncated) the trace file.
    pub fn open(&mut self)
        ensures
            final(self).is_open_spec(),
            final(self).is_open_spec() == after_call(old(self).is_open_spec(), SinkCall::Open),
    {
        self.open = true;
    }
}

/// Whether a trace file is currently open.
pub fn is_open(sink: &TraceSink) -> (r: bool)
    ensures
        r == sink.is_open_spec(),
{
    sink.open
}

/// Close the trace file.
pub fn close(sink: &mut TraceSink)
    ensures
        !final(sink).is_open_spec(),
        final(sink).is_open_spec() == after_call(old(sink).is_open_spec(), SinkCall::Close),
{
    sink.open = false;
}

/// Mirror one line to the open trace file: the text the host appends (the
/// line and a newline, flushed at once), or nothing when no file is open.
pub fn write(sink: &TraceSink, line: &str) -> (r: Option<String>)
    ensures
        sink.is_open_spec() ==> (r matches Some(t) && t@ == line@ + "\n"@),
        !sink.is_open_spec() ==> r is None,
{
    if sink.open {
        Some(String::from_str(line).concat("\n"))
    } else {
        None
    }
}

} // verus!
