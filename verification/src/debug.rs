//! A log of debug lines that is filled during a frame and shown at its end.

use vstd::prelude::*;

verus! {

/// The debug lines gathered since they were last shown.
#[derive(Debug)]
pub struct DebugLog {
    pub lines: Vec<String>,
}

impl DebugLog {
    pub fn new() -> (log: DebugLog)
        ensures
            log.lines@.len() == 0,
    {
        DebugLog { lines: Vec::new() }
    }
}

/// Appends one line to the log.
pub fn cw_debug(log: &mut DebugLog, s: String)
    ensures
        final(log).lines@ == old(log).lines@.push(s),
{
    log.lines.push(s);
}

/// Takes the gathered lines out of the log, in the order in which they were
/// added. The debug window is to be shown, with one label per line, exactly
/// when the result is not empty.
pub fn cw_draw_debug_window(log: &mut DebugLog) -> (shown: Vec<String>)
    ensures
        shown@ == old(log).lines@,
        final(log).lines@.len() == 0,
{
    let mut shown: Vec<String> = Vec::new();
    shown.append(&mut log.lines);
    shown
}

} // verus!
