//! Host functions offered to node scripts that need no simulation state.
use vstd::prelude::*;
use crate::logging::LogEvent;

verus! {

/// The `send` host function's standalone form: it accepts every message
/// (a target and a payload) from any calling context, and hands back the
/// line it writes to the console.
pub fn rhai_send(msg: (String, String), ctx: String) -> (r: (bool, String))
    ensures
        r.0,
        r.1@ == "fnction called"@,
{
    let _ = (msg, ctx);
    (true, "fnction called".to_owned())
}

/// The `log` host function's standalone form: the line it puts on the log
/// panel, attributed to the tool itself (`dsa`).
pub fn rhai_log(s: &str) -> (e: LogEvent)
    ensures
        e.node@ == "dsa"@,
        e.message@ == s@,
{
    LogEvent { node: "dsa".to_owned(), message: s.to_owned() }
}

} // verus!
