//! Pluggable logging sinks.  The network calls `header` once, then `log`
//! for every lifecycle and delivery event, keyed by the node identity the
//! event concerns.

use std::io::Write;
use vstd::prelude::*;

use crate::numerals::i32_to_string;

verus! {

/// A sink for simulation events.
///
/// `header` is called once, before any node starts; `log` is called for
/// every add/start/send/broadcast/receive event with a small fixed event
/// word and a free-form human-readable detail string.  Implementations
/// should be fast and non-blocking: the network may log while holding its
/// own state exclusively.
pub trait Logger: Sized {
    /// Prints a header, if the sink wants one.
    fn header(&self);

    /// Records one event for the node with the given identity.
    fn log(&self, ident: i32, event: &str, detail: &str);
}

/// Relies on `std::io::Stderr::write_fmt` (through `writeln`): writes one
/// line of text to standard error.
#[verifier::external_body]
fn stderr_line(line: &str) {
    let _ = writeln!(std::io::stderr(), "{}", line);
}

/// Relies on `std::io::Stdout::write_fmt` (through `writeln`): writes one
/// line of text to standard output.
#[verifier::external_body]
fn stdout_line(line: &str) {
    let _ = writeln!(std::io::stdout(), "{}", line);
}

/// Renders one log line: the identity, the event word, and the detail,
/// separated by pipes.
fn render_line(ident: i32, event: &str, detail: &str) -> String {
    let mut line = i32_to_string(ident);
    line.append(" | ");
    line.append(event);
    line.append(" | ");
    line.append(detail);
    line
}

/// A logger that writes to standard error, for diagnostic runs.
#[derive(Default)]
pub struct DebugLogger;

impl Logger for DebugLogger {
    fn header(&self) {
        stderr_line(" Node | Event      | Detail");
    }

    fn log(&self, ident: i32, event: &str, detail: &str) {
        let line = render_line(ident, event, detail);
        stderr_line(line.as_str());
    }
}

/// A logger that writes to standard output.
#[derive(Default)]
pub struct PrintLogger;

impl Logger for PrintLogger {
    fn header(&self) {
        stdout_line(" Node | Event      | Detail");
    }

    fn log(&self, ident: i32, event: &str, detail: &str) {
        let line = render_line(ident, event, detail);
        stdout_line(line.as_str());
    }
}

/// A logger that ignores every event, for runs whose trace is read from the
/// network's own history instead.
#[derive(Default)]
pub struct SilentLogger;

impl Logger for SilentLogger {
    fn header(&self) {
    }

    fn log(&self, _ident: i32, _event: &str, _detail: &str) {
    }
}

} // verus!
