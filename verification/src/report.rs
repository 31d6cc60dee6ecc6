//! The lines that `cddlc` prints.

use vstd::prelude::*;
use crate::text::{decimal, decimal_string};

verus! {

/// `  loading: <path>`, printed in verbose mode as each file is read.
pub fn loading_line(path: &str) -> (s: String)
    ensures
        s@ == "  loading: "@ + path@,
{
    let mut s = String::from_str("  loading: ");
    s.append(path);
    s
}

/// `cddlc: loading <n> input file(s)...`, printed in verbose mode first.
pub fn loading_banner(inputs: usize) -> (s: String)
    ensures
        s@ == "cddlc: loading "@ + decimal(inputs as nat) + " input file(s)..."@,
{
    let mut s = String::from_str("cddlc: loading ");
    let n = decimal_string(inputs);
    s.append(n.as_str());
    s.append(" input file(s)...");
    s
}

/// `warning: <message>`, printed for each warning of the parser.
pub fn warning_line(message: &str) -> (s: String)
    ensures
        s@ == "warning: "@ + message@,
{
    let mut s = String::from_str("warning: ");
    s.append(message);
    s
}

/// `cddlc: <n> type(s) resolved:`, printed in verbose mode after analysis.
pub fn types_resolved_banner(types: usize) -> (s: String)
    ensures
        s@ == "cddlc: "@ + decimal(types as nat) + " type(s) resolved:"@,
{
    let mut s = String::from_str("cddlc: ");
    let n = decimal_string(types);
    s.append(n.as_str());
    s.append(" type(s) resolved:");
    s
}

/// `cddlc: dry-run complete (<n> types)`, printed when a dry run ends.
pub fn dry_run_message(types: usize) -> (s: String)
    ensures
        s@ == "cddlc: dry-run complete ("@ + decimal(types as nat) + " types)"@,
{
    let mut s = String::from_str("cddlc: dry-run complete (");
    let n = decimal_string(types);
    s.append(n.as_str());
    s.append(" types)");
    s
}

/// `cddlc: wrote <path>`, printed for each file written.
pub fn wrote_line(path: &str) -> (s: String)
    ensures
        s@ == "cddlc: wrote "@ + path@,
{
    let mut s = String::from_str("cddlc: wrote ");
    s.append(path);
    s
}

/// `error: <message>`, printed when the command fails.
pub fn error_line(message: &str) -> (s: String)
    ensures
        s@ == "error: "@ + message@,
{
    let mut s = String::from_str("error: ");
    s.append(message);
    s
}

} // verus!
