//! Detect installed provider CLIs: what a PATH lookup and a `--version`
//! probe tell.

use vstd::prelude::*;

use crate::runner::RunOutcome;
use crate::text::{chars_of, find_in, string_of, trim, trim_bounds, find};

verus! {

#[derive(Debug, Clone)]
pub struct Detection {
    pub installed: bool,
    /// Resolved binary path, when installed.
    pub path: Option<String>,
    /// First line of `<binary> --version`, when it answers.
    pub version: Option<String>,
}

/// The first line of `s`: the text before the first newline.
pub open spec fn first_line(s: Seq<char>) -> Seq<char> {
    match find(s, seq!['\n']) {
        Some(k) => s.take(k),
        None => s,
    }
}

/// The version a `--version` probe reports: its first output line, trimmed,
/// when the probe succeeded and that line is not blank.
pub open spec fn version_of(out: RunOutcome) -> Option<Seq<char>> {
    if out.status == Some(0i32) && trim(first_line(out.stdout@)).len() > 0 {
        Some(trim(first_line(out.stdout@)))
    } else {
        None
    }
}

/// A CLI found on PATH at `path`, with what its `--version` probe printed.
pub fn installed(path: String, probe: &RunOutcome) -> (d: Detection)
    ensures
        d.installed,
        d.path == Some(path),
        match version_of(*probe) {
            Some(v) => d.version matches Some(s) && s@ == v,
            None => d.version is None,
        },
{
    let version = if probe.ok() {
        let v = chars_of(probe.stdout.as_str());
        let nl: Vec<char> = vec!['\n'];
        assert(nl@ =~= seq!['\n']);
        let n = v.len();
        assert(v@.subrange(0, n as int) =~= v@);
        let end = match find_in(&v, 0, n, &nl) {
            Some(k) => k,
            None => n,
        };
        assert(v@.subrange(0, end as int) =~= first_line(v@));
        let (a, b) = trim_bounds(&v, 0, end);
        if a < b {
            Some(string_of(&v, a, b))
        } else {
            None
        }
    } else {
        None
    };
    Detection { installed: true, path: Some(path), version }
}

/// A CLI that is not on PATH.
pub fn not_installed() -> (d: Detection)
    ensures
        !d.installed,
        d.path is None,
        d.version is None,
{
    Detection { installed: false, path: None, version: None }
}

} // verus!
