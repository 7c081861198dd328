//! Daily bill reminders via a launchd agent (macOS): the schedule's text
//! form. A LaunchAgent runs `utiman check --notify` once a day; this module
//! renders its plist, reads the schedule back out of one, and parses the
//! `HH:MM` time users give.

use vstd::prelude::*;

use crate::install::{debug_quoted, quoted};
use crate::text::{
    contains_text, differs_from, is_digit, lemma_absent_inside, lemma_decimal, lemma_find_first,
    lemma_find_found, lemma_number_region, lemma_occurs_skip, lemma_parse_signed,
    lemma_parse_unsigned, lemma_ruled_out, lemma_signed_decimal, lemma_trim_plain, occurs_at,
    ruled_out,
    chars_of, find, find_in, parse_i64, parse_i64_in, parse_u32, parse_u32_in, push_decimal,
    push_signed, push_str, signed_decimal, decimal, trim, trim_bounds,
};

verus! {

/// launchd label / plist basename — also the reverse-DNS id launchctl uses.
pub const LABEL: &'static str = "com.piekstra.utiman.check";

/// A configured reminder: the daily time and the "due soon" window it checks.
#[derive(Debug, Clone, Copy, PartialEq, Eq, Structural)]
pub struct Reminder {
    pub hour: u32,
    pub minute: u32,
    pub within: i64,
}

/// Why a `HH:MM` time was rejected.
#[derive(Debug, Clone, Copy, PartialEq, Eq, Structural)]
pub enum TimeError {
    /// No `:` separates hours from minutes.
    NoColon,
    /// The part before the colon is not a number.
    BadHour,
    /// The part after the colon is not a number.
    BadMinute,
    /// The time is not within 00:00–23:59.
    OutOfRange,
}

/// The message a rejected time `s` is reported with.
pub open spec fn time_error_text(e: TimeError, s: Seq<char>) -> Seq<char> {
    match e {
        TimeError::NoColon => "time must look like HH:MM, got "@ + debug_quoted(s),
        TimeError::BadHour => "bad hour"@,
        TimeError::BadMinute => "bad minute"@,
        TimeError::OutOfRange => "time out of range (00:00\u{2013}23:59): "@ + debug_quoted(s),
    }
}

impl TimeError {
    /// The error as the command line reports it, for the input `s`.
    pub fn message(&self, s: &str) -> (r: String)
        ensures
            r@ == time_error_text(*self, s@),
    {
        let mut m = String::new();
        match self {
            TimeError::NoColon => {
                push_str(&mut m, "time must look like HH:MM, got ");
                let q = quoted(s);
                push_str(&mut m, q.as_str());
            },
            TimeError::BadHour => push_str(&mut m, "bad hour"),
            TimeError::BadMinute => push_str(&mut m, "bad minute"),
            TimeError::OutOfRange => {
                push_str(&mut m, "time out of range (00:00\u{2013}23:59): ");
                let q = quoted(s);
                push_str(&mut m, q.as_str());
            },
        }
        m
    }
}

/// The time `HH:MM` denotes: the text around the first colon, each trimmed
/// and read as an unsigned number, hour at most 23 and minute at most 59.
pub open spec fn time_of(s: Seq<char>) -> Result<(u32, u32), TimeError> {
    match find(s, seq![':']) {
        None => Err(TimeError::NoColon),
        Some(p) => match parse_u32(trim(s.take(p))) {
            None => Err(TimeError::BadHour),
            Some(h) => match parse_u32(trim(s.skip(p + 1))) {
                None => Err(TimeError::BadMinute),
                Some(m) => if h > 23 || m > 59 { Err(TimeError::OutOfRange) } else { Ok((h, m)) },
            },
        },
    }
}

/// Parse `HH:MM` (24-hour) into (hour, minute).
pub fn parse_time(s: &str) -> (r: Result<(u32, u32), TimeError>)
    ensures
        r == time_of(s@),
{
    let v = chars_of(s);
    let colon: Vec<char> = vec![':'];
    let n = v.len();
    assert(colon@ =~= seq![':']);
    let p = match find_in(&v, 0, n, &colon) {
        None => {
            assert(v@.subrange(0, n as int) =~= v@);
            return Err(TimeError::NoColon);
        },
        Some(p) => p,
    };
    assert(v@.subrange(0, n as int) =~= v@);
    assert(colon@ =~= seq![':']);
    let (ha, hb) = trim_bounds(&v, 0, p);
    let hour = match parse_u32_in(&v, ha, hb) {
        None => {
            assert(v@.subrange(0, p as int) =~= v@.take(p as int));
            return Err(TimeError::BadHour);
        },
        Some(h) => h,
    };
    assert(v@.subrange(0, p as int) =~= v@.take(p as int));
    let (ma, mb) = trim_bounds(&v, p + 1, n);
    assert(v@.subrange(p + 1, n as int) =~= v@.skip(p + 1));
    let minute = match parse_u32_in(&v, ma, mb) {
        None => return Err(TimeError::BadMinute),
        Some(m) => m,
    };
    if hour > 23 || minute > 59 {
        return Err(TimeError::OutOfRange);
    }
    Ok((hour, minute))
}

/// The plist up to the program path.
pub open spec fn plist_head() -> Seq<char> {
    "<?xml version=\"1.0\" encoding=\"UTF-8\"?>\n<!DOCTYPE plist PUBLIC \"-//Apple//DTD PLIST 1.0//EN\" \"http://www.apple.com/DTDs/PropertyList-1.0.dtd\">\n<plist version=\"1.0\">\n<dict>\n  <key>Label</key><string>"@ + LABEL@
        + "</string>\n  <key>ProgramArguments</key>\n  <array>\n    <string>"@
}

/// The plist between the program path and the `--within` value.
pub open spec fn plist_args() -> Seq<char> {
    "</string>\n    <string>check</string>\n    <string>--notify</string>\n    <string>--within</string>\n    <string>"@
}

/// The plist between the `--within` value and the hour.
pub open spec fn plist_schedule() -> Seq<char> {
    "</string>\n  </array>\n  <key>StartCalendarInterval</key>\n  <dict>\n    <key>Hour</key><integer>"@
}

/// The plist between the hour and the minute.
pub open spec fn plist_minute() -> Seq<char> {
    "</integer>\n    <key>Minute</key><integer>"@
}

/// The plist between the minute and the log path.
pub open spec fn plist_log() -> Seq<char> {
    "</integer>\n  </dict>\n  <key>StandardOutPath</key><string>"@
}

/// The LaunchAgent plist that runs `<exe> check --notify --within N` daily
/// at the reminder's time, logging to `log`.
pub open spec fn plist_text(exe: Seq<char>, log: Seq<char>, r: Reminder) -> Seq<char> {
    plist_head()
        + exe
        + plist_args()
        + signed_decimal(r.within as int)
        + plist_schedule()
        + decimal(r.hour as nat)
        + plist_minute()
        + decimal(r.minute as nat)
        + plist_log()
        + log
        + "</string>\n  <key>StandardErrorPath</key><string>"@
        + log
        + "</string>\n</dict>\n</plist>\n"@
}

/// Render the LaunchAgent plist that runs `<exe> check --notify --within N`
/// daily at the given time, logging to `log`.
pub fn plist_xml(exe: &str, log: &str, r: Reminder) -> (x: String)
    ensures
        x@ == plist_text(exe@, log@, r),
{
    let mut x = String::new();
    push_str(&mut x, "<?xml version=\"1.0\" encoding=\"UTF-8\"?>\n<!DOCTYPE plist PUBLIC \"-//Apple//DTD PLIST 1.0//EN\" \"http://www.apple.com/DTDs/PropertyList-1.0.dtd\">\n<plist version=\"1.0\">\n<dict>\n  <key>Label</key><string>");
    push_str(&mut x, LABEL);
    push_str(&mut x, "</string>\n  <key>ProgramArguments</key>\n  <array>\n    <string>");
    push_str(&mut x, exe);
    push_str(&mut x, "</string>\n    <string>check</string>\n    <string>--notify</string>\n    <string>--within</string>\n    <string>");
    push_signed(&mut x, r.within);
    push_str(&mut x, "</string>\n  </array>\n  <key>StartCalendarInterval</key>\n  <dict>\n    <key>Hour</key><integer>");
    push_decimal(&mut x, r.hour as u64);
    push_str(&mut x, "</integer>\n    <key>Minute</key><integer>");
    push_decimal(&mut x, r.minute as u64);
    push_str(&mut x, "</integer>\n  </dict>\n  <key>StandardOutPath</key><string>");
    push_str(&mut x, log);
    push_str(&mut x, "</string>\n  <key>StandardErrorPath</key><string>");
    push_str(&mut x, log);
    push_str(&mut x, "</string>\n</dict>\n</plist>\n");
    x
}

/// The text between the first and second occurrences of `pat` (to the end
/// when it occurs once): the second piece `str::split` yields.
pub open spec fn second_piece(s: Seq<char>, pat: Seq<char>) -> Option<Seq<char>> {
    match find(s, pat) {
        None => None,
        Some(p) => {
            let rest = s.skip(p + pat.len());
            match find(rest, pat) {
                None => Some(rest),
                Some(q) => Some(rest.take(q)),
            }
        },
    }
}

/// The text between the first `open` and the first `close` after it.
pub open spec fn between(s: Seq<char>, open: Seq<char>, close: Seq<char>) -> Option<Seq<char>> {
    match find(s, open) {
        None => None,
        Some(p) => {
            let start = p + open.len();
            match find(s.skip(start), close) {
                None => None,
                Some(q) => Some(s.subrange(start, start + q)),
            }
        },
    }
}

/// The `<integer>` right after `<key>NAME</key>`, read as a number.
pub open spec fn integer_after_key(plist: Seq<char>, key: Seq<char>) -> Option<u32> {
    match second_piece(plist, "<key>"@ + key + "</key>"@) {
        None => None,
        Some(rest) => match between(rest, "<integer>"@, "</integer>"@) {
            None => None,
            Some(t) => parse_u32(trim(t)),
        },
    }
}

/// The `--within` argument: the `<string>` after `--within`, 5 when absent
/// or unreadable.
pub open spec fn within_of(plist: Seq<char>) -> i64 {
    match second_piece(plist, "--within"@) {
        None => 5,
        Some(rest) => match between(rest, "<string>"@, "</string>"@) {
            None => 5,
            Some(t) => match parse_i64(trim(t)) {
                None => 5,
                Some(w) => w,
            },
        },
    }
}

/// The schedule a plist holds, if it names both an hour and a minute.
pub open spec fn status_of(plist: Seq<char>) -> Option<Reminder> {
    match (integer_after_key(plist, "Hour"@), integer_after_key(plist, "Minute"@)) {
        (Some(hour), Some(minute)) => Some(Reminder { hour, minute, within: within_of(plist) }),
        _ => None,
    }
}

/// Bounds, in `v`, of the second piece of `v[0..n]` split on `pat`.
fn second_piece_in(v: &Vec<char>, pat: &Vec<char>) -> (r: Option<(usize, usize)>)
    requires
        pat@.len() > 0,
    ensures
        match second_piece(v@, pat@) {
            None => r is None,
            Some(t) => r matches Some((a, b)) && a <= b <= v@.len() && v@.subrange(a as int, b as int) == t,
        },
{
    let n = v.len();
    assert(v@.subrange(0, n as int) =~= v@);
    let p = match find_in(v, 0, n, pat) {
        None => return None,
        Some(p) => p,
    };
    let start = p + pat.len();
    assert(v@.subrange(start as int, n as int) =~= v@.skip(start as int));
    match find_in(v, start, n, pat) {
        None => Some((start, n)),
        Some(q) => {
            assert(v@.subrange(start as int, q as int) =~= v@.skip(start as int).take(q - start));
            Some((start, q))
        },
    }
}

/// Bounds, in `v`, of the text between `open` and `close` in `v[lo..hi]`.
fn between_in(v: &Vec<char>, lo: usize, hi: usize, open: &Vec<char>, close: &Vec<char>) -> (r: Option<(usize, usize)>)
    requires
        lo <= hi <= v@.len(),
    ensures
        match between(v@.subrange(lo as int, hi as int), open@, close@) {
            None => r is None,
            Some(t) => r matches Some((a, b)) && lo <= a <= b <= hi && v@.subrange(a as int, b as int) == t,
        },
{
    let ghost s = v@.subrange(lo as int, hi as int);
    let p = match find_in(v, lo, hi, open) {
        None => return None,
        Some(p) => p,
    };
    let start = p + open.len();
    assert(v@.subrange(start as int, hi as int) =~= s.skip(start - lo));
    match find_in(v, start, hi, close) {
        None => None,
        Some(q) => {
            assert(v@.subrange(start as int, q as int) =~= s.subrange(start - lo, q - lo));
            Some((start, q))
        },
    }
}

/// Value of the `<integer>` immediately following `<key>NAME</key>`.
fn tag_after(v: &Vec<char>, key: &str) -> (r: Option<u32>)
    ensures
        r == integer_after_key(v@, key@),
{
    let mut pat = String::new();
    push_str(&mut pat, "<key>");
    push_str(&mut pat, key);
    push_str(&mut pat, "</key>");
    let pat_v = chars_of(pat.as_str());
    proof {
        reveal_strlit("<key>");
    }
    let (a, b) = match second_piece_in(v, &pat_v) {
        None => return None,
        Some(ab) => ab,
    };
    let open = chars_of("<integer>");
    let close = chars_of("</integer>");
    let (c, d) = match between_in(v, a, b, &open, &close) {
        None => return None,
        Some(cd) => cd,
    };
    let (e, f) = trim_bounds(v, c, d);
    parse_u32_in(v, e, f)
}

/// Read the current schedule back out of an installed plist (best-effort):
/// the hour and minute, and the `--within` window (5 if unreadable).
pub fn parse_status(plist: &str) -> (r: Option<Reminder>)
    ensures
        r == status_of(plist@),
{
    let v = chars_of(plist);
    let hour = match tag_after(&v, "Hour") {
        None => return None,
        Some(h) => h,
    };
    let minute = match tag_after(&v, "Minute") {
        None => return None,
        Some(m) => m,
    };
    let pat = chars_of("--within");
    proof {
        reveal_strlit("--within");
    }
    let within = match second_piece_in(&v, &pat) {
        None => 5,
        Some((a, b)) => {
            let open = chars_of("<string>");
            let close = chars_of("</string>");
            match between_in(&v, a, b, &open, &close) {
                None => 5,
                Some((c, d)) => {
                    let (e, f) = trim_bounds(&v, c, d);
                    match parse_i64_in(&v, e, f) {
                        None => 5,
                        Some(w) => w,
                    }
                },
            }
        },
    };
    Some(Reminder { hour, minute, within })
}

// ---------- reading a written plist back ----------

/// The marker `parse_status` finds the hour by.
pub open spec fn hour_key() -> Seq<char> {
    "<key>"@ + "Hour"@ + "</key>"@
}

/// The marker `parse_status` finds the minute by.
pub open spec fn minute_key() -> Seq<char> {
    "<key>"@ + "Minute"@ + "</key>"@
}

/// The three markers, spelled out.
proof fn lemma_markers()
    ensures
        hour_key() == "<key>Hour</key>"@,
        minute_key() == "<key>Minute</key>"@,
        "--within"@.len() == 8,
        hour_key().len() == 15,
        minute_key().len() == 17,
        !is_digit("--within"@[0]) && !is_digit("--within"@[1]),
        !is_digit(hour_key()[0]) && !is_digit(hour_key()[1]),
        !is_digit(minute_key()[0]) && !is_digit(minute_key()[1]),
{
    reveal_strlit("<key>");
    reveal_strlit("Hour");
    reveal_strlit("Minute");
    reveal_strlit("</key>");
    reveal_strlit("<key>Hour</key>");
    reveal_strlit("<key>Minute</key>");
    reveal_strlit("--within");
    assert(hour_key() =~= "<key>Hour</key>"@);
    assert(minute_key() =~= "<key>Minute</key>"@);
}

/// No marker starts inside the plist's head.
proof fn lemma_head_scan()
    ensures
        plist_head().len() == 284,
        ruled_out(plist_head(), "--within"@, 0, 284),
        ruled_out(plist_head(), "<key>Hour</key>"@, 0, 284),
        ruled_out(plist_head(), "<key>Minute</key>"@, 0, 284),
{
    reveal_strlit("<?xml version=\"1.0\" encoding=\"UTF-8\"?>\n<!DOCTYPE plist PUBLIC \"-//Apple//DTD PLIST 1.0//EN\" \"http://www.apple.com/DTDs/PropertyList-1.0.dtd\">\n<plist version=\"1.0\">\n<dict>\n  <key>Label</key><string>");
    reveal_strlit("com.piekstra.utiman.check");
    reveal_strlit("</string>\n  <key>ProgramArguments</key>\n  <array>\n    <string>");
    reveal_strlit("--within");
    reveal_strlit("<key>Hour</key>");
    reveal_strlit("<key>Minute</key>");
    reveal_with_fuel(differs_from, 7);
    reveal_with_fuel(ruled_out, 22);
    // Checked twenty start positions at a time, from the end down.
    let h = plist_head();
    assert(ruled_out(h, "--within"@, 280, 284));
    assert(ruled_out(h, "--within"@, 260, 284));
    assert(ruled_out(h, "--within"@, 240, 284));
    assert(ruled_out(h, "--within"@, 220, 284));
    assert(ruled_out(h, "--within"@, 200, 284));
    assert(ruled_out(h, "--within"@, 180, 284));
    assert(ruled_out(h, "--within"@, 160, 284));
    assert(ruled_out(h, "--within"@, 140, 284));
    assert(ruled_out(h, "--within"@, 120, 284));
    assert(ruled_out(h, "--within"@, 100, 284));
    assert(ruled_out(h, "--within"@, 80, 284));
    assert(ruled_out(h, "--within"@, 60, 284));
    assert(ruled_out(h, "--within"@, 40, 284));
    assert(ruled_out(h, "--within"@, 20, 284));
    assert(ruled_out(h, "--within"@, 0, 284));
    assert(ruled_out(h, "<key>Hour</key>"@, 280, 284));
    assert(ruled_out(h, "<key>Hour</key>"@, 260, 284));
    assert(ruled_out(h, "<key>Hour</key>"@, 240, 284));
    assert(ruled_out(h, "<key>Hour</key>"@, 220, 284));
    assert(ruled_out(h, "<key>Hour</key>"@, 200, 284));
    assert(ruled_out(h, "<key>Hour</key>"@, 180, 284));
    assert(ruled_out(h, "<key>Hour</key>"@, 160, 284));
    assert(ruled_out(h, "<key>Hour</key>"@, 140, 284));
    assert(ruled_out(h, "<key>Hour</key>"@, 120, 284));
    assert(ruled_out(h, "<key>Hour</key>"@, 100, 284));
    assert(ruled_out(h, "<key>Hour</key>"@, 80, 284));
    assert(ruled_out(h, "<key>Hour</key>"@, 60, 284));
    assert(ruled_out(h, "<key>Hour</key>"@, 40, 284));
    assert(ruled_out(h, "<key>Hour</key>"@, 20, 284));
    assert(ruled_out(h, "<key>Hour</key>"@, 0, 284));
    assert(ruled_out(h, "<key>Minute</key>"@, 280, 284));
    assert(ruled_out(h, "<key>Minute</key>"@, 260, 284));
    assert(ruled_out(h, "<key>Minute</key>"@, 240, 284));
    assert(ruled_out(h, "<key>Minute</key>"@, 220, 284));
    assert(ruled_out(h, "<key>Minute</key>"@, 200, 284));
    assert(ruled_out(h, "<key>Minute</key>"@, 180, 284));
    assert(ruled_out(h, "<key>Minute</key>"@, 160, 284));
    assert(ruled_out(h, "<key>Minute</key>"@, 140, 284));
    assert(ruled_out(h, "<key>Minute</key>"@, 120, 284));
    assert(ruled_out(h, "<key>Minute</key>"@, 100, 284));
    assert(ruled_out(h, "<key>Minute</key>"@, 80, 284));
    assert(ruled_out(h, "<key>Minute</key>"@, 60, 284));
    assert(ruled_out(h, "<key>Minute</key>"@, 40, 284));
    assert(ruled_out(h, "<key>Minute</key>"@, 20, 284));
    assert(ruled_out(h, "<key>Minute</key>"@, 0, 284));
}

/// Where the markers can and cannot start around the program arguments.
proof fn lemma_args_scan()
    ensures
        plist_args().len() == 109,
        plist_args().subrange(79, 87) == "--within"@,
        plist_args().subrange(101, 109) == "<string>"@,
        ruled_out(plist_args(), "--within"@, -7, 79),
        ruled_out(plist_args(), "--within"@, 87, 109),
        ruled_out(plist_args(), "<string>"@, 87, 101),
        ruled_out(plist_args(), "<key>Hour</key>"@, -14, 109),
        ruled_out(plist_args(), "<key>Minute</key>"@, -16, 109),
{
    reveal_strlit("</string>\n    <string>check</string>\n    <string>--notify</string>\n    <string>--within</string>\n    <string>");
    reveal_strlit("--within");
    reveal_strlit("<key>Hour</key>");
    reveal_strlit("<key>Minute</key>");
    reveal_strlit("<string>");
    reveal_with_fuel(differs_from, 7);
    reveal_with_fuel(ruled_out, 22);
    // Checked twenty start positions at a time, from the end down.
    let t = plist_args();
    assert(t.subrange(79, 87) =~= "--within"@);
    assert(t.subrange(101, 109) =~= "<string>"@);
    assert(ruled_out(t, "--within"@, 59, 79));
    assert(ruled_out(t, "--within"@, 39, 79));
    assert(ruled_out(t, "--within"@, 19, 79));
    assert(ruled_out(t, "--within"@, -1, 79));
    assert(ruled_out(t, "--within"@, -7, 79));
    assert(ruled_out(t, "--within"@, 89, 109));
    assert(ruled_out(t, "--within"@, 87, 109));
    assert(ruled_out(t, "<string>"@, 87, 101));
    assert(ruled_out(t, "<key>Hour</key>"@, 89, 109));
    assert(ruled_out(t, "<key>Hour</key>"@, 69, 109));
    assert(ruled_out(t, "<key>Hour</key>"@, 49, 109));
    assert(ruled_out(t, "<key>Hour</key>"@, 29, 109));
    assert(ruled_out(t, "<key>Hour</key>"@, 9, 109));
    assert(ruled_out(t, "<key>Hour</key>"@, -11, 109));
    assert(ruled_out(t, "<key>Hour</key>"@, -14, 109));
    assert(ruled_out(t, "<key>Minute</key>"@, 89, 109));
    assert(ruled_out(t, "<key>Minute</key>"@, 69, 109));
    assert(ruled_out(t, "<key>Minute</key>"@, 49, 109));
    assert(ruled_out(t, "<key>Minute</key>"@, 29, 109));
    assert(ruled_out(t, "<key>Minute</key>"@, 9, 109));
    assert(ruled_out(t, "<key>Minute</key>"@, -11, 109));
    assert(ruled_out(t, "<key>Minute</key>"@, -16, 109));
}

/// Where the markers can and cannot start around the hour key.
proof fn lemma_schedule_scan()
    ensures
        plist_schedule().len() == 93,
        plist_schedule().subrange(0, 9) == "</string>"@,
        plist_schedule().subrange(69, 84) == "<key>Hour</key>"@,
        plist_schedule().subrange(84, 93) == "<integer>"@,
        ruled_out(plist_schedule(), "<key>Hour</key>"@, 0, 69),
        ruled_out(plist_schedule(), "<key>Hour</key>"@, 84, 93),
        ruled_out(plist_schedule(), "<key>Minute</key>"@, 0, 93),
        ruled_out(plist_schedule(), "--within"@, 0, 9),
{
    reveal_strlit("</string>\n  </array>\n  <key>StartCalendarInterval</key>\n  <dict>\n    <key>Hour</key><integer>");
    reveal_strlit("--within");
    reveal_strlit("</string>");
    reveal_strlit("<integer>");
    reveal_strlit("<key>Hour</key>");
    reveal_strlit("<key>Minute</key>");
    reveal_with_fuel(differs_from, 7);
    reveal_with_fuel(ruled_out, 22);
    // Checked twenty start positions at a time, from the end down.
    let t = plist_schedule();
    assert(t.subrange(0, 9) =~= "</string>"@);
    assert(t.subrange(69, 84) =~= "<key>Hour</key>"@);
    assert(t.subrange(84, 93) =~= "<integer>"@);
    assert(ruled_out(t, "<key>Hour</key>"@, 49, 69));
    assert(ruled_out(t, "<key>Hour</key>"@, 29, 69));
    assert(ruled_out(t, "<key>Hour</key>"@, 9, 69));
    assert(ruled_out(t, "<key>Hour</key>"@, 0, 69));
    assert(ruled_out(t, "<key>Hour</key>"@, 84, 93));
    assert(ruled_out(t, "<key>Minute</key>"@, 73, 93));
    assert(ruled_out(t, "<key>Minute</key>"@, 53, 93));
    assert(ruled_out(t, "<key>Minute</key>"@, 33, 93));
    assert(ruled_out(t, "<key>Minute</key>"@, 13, 93));
    assert(ruled_out(t, "<key>Minute</key>"@, 0, 93));
    assert(ruled_out(t, "--within"@, 0, 9));
}

/// Where the markers can and cannot start around the minute key.
proof fn lemma_minute_scan()
    ensures
        plist_minute().len() == 41,
        plist_minute().subrange(0, 10) == "</integer>"@,
        plist_minute().subrange(15, 32) == "<key>Minute</key>"@,
        plist_minute().subrange(32, 41) == "<integer>"@,
        ruled_out(plist_minute(), "<key>Hour</key>"@, 0, 10),
        ruled_out(plist_minute(), "<key>Minute</key>"@, 0, 15),
        ruled_out(plist_minute(), "<key>Minute</key>"@, 32, 41),
{
    reveal_strlit("</integer>\n    <key>Minute</key><integer>");
    reveal_strlit("</integer>");
    reveal_strlit("<integer>");
    reveal_strlit("<key>Hour</key>");
    reveal_strlit("<key>Minute</key>");
    reveal_with_fuel(differs_from, 7);
    reveal_with_fuel(ruled_out, 22);
    // Checked twenty start positions at a time, from the end down.
    let t = plist_minute();
    assert(t.subrange(0, 10) =~= "</integer>"@);
    assert(t.subrange(15, 32) =~= "<key>Minute</key>"@);
    assert(t.subrange(32, 41) =~= "<integer>"@);
    assert(ruled_out(t, "<key>Hour</key>"@, 0, 10));
    assert(ruled_out(t, "<key>Minute</key>"@, 0, 15));
    assert(ruled_out(t, "<key>Minute</key>"@, 32, 41));
}

/// No minute marker starts where the minute ends.
proof fn lemma_log_scan()
    ensures
        plist_log().len() == 57,
        plist_log().subrange(0, 10) == "</integer>"@,
        ruled_out(plist_log(), "<key>Minute</key>"@, 0, 10),
{
    reveal_strlit("</integer>\n  </dict>\n  <key>StandardOutPath</key><string>");
    reveal_strlit("</integer>");
    reveal_strlit("<key>Minute</key>");
    reveal_with_fuel(differs_from, 7);
    reveal_with_fuel(ruled_out, 22);
    // Checked twenty start positions at a time, from the end down.
    let t = plist_log();
    assert(t.subrange(0, 10) =~= "</integer>"@);
    assert(ruled_out(t, "<key>Minute</key>"@, 0, 10));
}

/// Where, in a written plist, the program arguments after the path start.
spec fn args_at(exe: Seq<char>) -> int {
    284 + exe.len() as int
}

/// Where the `--within` value starts.
spec fn within_at(exe: Seq<char>) -> int {
    args_at(exe) + 109
}

/// Where the text between the `--within` value and the hour starts.
spec fn schedule_at(exe: Seq<char>, r: Reminder) -> int {
    within_at(exe) + signed_decimal(r.within as int).len()
}

/// Where the hour starts.
spec fn hour_at(exe: Seq<char>, r: Reminder) -> int {
    schedule_at(exe, r) + 93
}

/// Where the text between the hour and the minute starts.
spec fn minute_key_at(exe: Seq<char>, r: Reminder) -> int {
    hour_at(exe, r) + decimal(r.hour as nat).len()
}

/// Where the minute starts.
spec fn minute_at(exe: Seq<char>, r: Reminder) -> int {
    minute_key_at(exe, r) + 41
}

/// Where the text after the minute starts.
spec fn log_key_at(exe: Seq<char>, r: Reminder) -> int {
    minute_at(exe, r) + decimal(r.minute as nat).len()
}

/// The pieces of a written plist, where they stand.
proof fn lemma_plist_layout(exe: Seq<char>, log: Seq<char>, r: Reminder)
    ensures
        plist_text(exe, log, r).len() >= log_key_at(exe, r) + 57,
        plist_text(exe, log, r).subrange(0, 284) == plist_head(),
        plist_text(exe, log, r).subrange(284, args_at(exe)) == exe,
        plist_text(exe, log, r).subrange(args_at(exe), within_at(exe)) == plist_args(),
        plist_text(exe, log, r).subrange(within_at(exe), schedule_at(exe, r)) == signed_decimal(r.within as int),
        plist_text(exe, log, r).subrange(schedule_at(exe, r), hour_at(exe, r)) == plist_schedule(),
        plist_text(exe, log, r).subrange(hour_at(exe, r), minute_key_at(exe, r)) == decimal(r.hour as nat),
        plist_text(exe, log, r).subrange(minute_key_at(exe, r), minute_at(exe, r)) == plist_minute(),
        plist_text(exe, log, r).subrange(minute_at(exe, r), log_key_at(exe, r)) == decimal(r.minute as nat),
        plist_text(exe, log, r).subrange(log_key_at(exe, r), log_key_at(exe, r) + 57) == plist_log(),
{
    lemma_head_scan();
    lemma_args_scan();
    lemma_schedule_scan();
    lemma_minute_scan();
    lemma_log_scan();
    let p = plist_text(exe, log, r);
    assert(p.subrange(0, 284) =~= plist_head());
    assert(p.subrange(284, args_at(exe)) =~= exe);
    assert(p.subrange(args_at(exe), within_at(exe)) =~= plist_args());
    assert(p.subrange(within_at(exe), schedule_at(exe, r)) =~= signed_decimal(r.within as int));
    assert(p.subrange(schedule_at(exe, r), hour_at(exe, r)) =~= plist_schedule());
    assert(p.subrange(hour_at(exe, r), minute_key_at(exe, r)) =~= decimal(r.hour as nat));
    assert(p.subrange(minute_key_at(exe, r), minute_at(exe, r)) =~= plist_minute());
    assert(p.subrange(minute_at(exe, r), log_key_at(exe, r)) =~= decimal(r.minute as nat));
    assert(p.subrange(log_key_at(exe, r), log_key_at(exe, r) + 57) =~= plist_log());
}

/// Reading a field after a marker: when `pat` first occurs at `p0` and the
/// text after it holds `open`, then `t`, then `close` (with no `open`
/// earlier, no `close`'s first character in `t`, and no `pat` again before
/// `close` ends), the field read there is `t`.
proof fn lemma_field_after(
    s: Seq<char>,
    rest: Seq<char>,
    pat: Seq<char>,
    p0: int,
    open: Seq<char>,
    close: Seq<char>,
    a: int,
    t: Seq<char>,
)
    requires
        find(s, pat) == Some(p0),
        0 <= p0,
        p0 + pat.len() <= s.len(),
        rest == s.skip(p0 + pat.len()),
        0 <= a,
        close.len() > 0,
        a + open.len() + t.len() + close.len() <= rest.len(),
        rest.subrange(a, a + open.len()) == open,
        rest.subrange(a + open.len(), a + open.len() + t.len()) == t,
        rest.subrange(a + open.len() + t.len(), a + open.len() + t.len() + close.len()) == close,
        forall|j: int| 0 <= j < a ==> !occurs_at(rest, open, j),
        forall|j: int| 0 <= j < a + open.len() + t.len() + close.len() ==> !occurs_at(rest, pat, j),
        forall|k: int| 0 <= k < t.len() ==> t[k] != close[0],
    ensures
        second_piece(s, pat) matches Some(piece) && between(piece, open, close) == Some(t),
{
    let end = a + open.len() + t.len() + close.len();
    lemma_find_found(rest, pat);
    let piece = match find(rest, pat) {
        None => rest,
        Some(q) => rest.take(q),
    };
    if let Some(q) = find(rest, pat) {
        if q < end {
            assert(!occurs_at(rest, pat, q));
        }
    }
    assert(second_piece(s, pat) == Some(piece));
    assert(piece.len() >= end);
    assert forall|i: int| 0 <= i < end implies piece[i] == rest[i] by {}
    assert(piece.subrange(a, a + open.len()) =~= rest.subrange(a, a + open.len()));
    assert forall|j: int| 0 <= j < a implies !occurs_at(piece, open, j) by {
        if occurs_at(piece, open, j) {
            assert(rest.subrange(j, j + open.len()) =~= piece.subrange(j, j + open.len()));
            assert(occurs_at(rest, open, j));
        }
    }
    lemma_find_first(piece, open, a);
    let start = a + open.len();
    let after = piece.skip(start);
    assert(after.subrange(t.len() as int, (t.len() + close.len()) as int) =~= rest.subrange(start + t.len(), end));
    assert forall|j: int| 0 <= j < t.len() implies !occurs_at(after, close, j) by {
        if occurs_at(after, close, j) {
            assert(after.subrange(j, j + close.len())[0] == close[0]);
            assert(rest.subrange(start, start + t.len())[j] == t[j]);
        }
    }
    lemma_find_first(after, close, t.len() as int);
    assert(piece.subrange(start, start + t.len()) =~= t);
}

/// The `--within` value of a written plist reads back as written.
proof fn lemma_reads_within(exe: Seq<char>, log: Seq<char>, r: Reminder)
    requires
        !contains_text(exe, "--within"@),
    ensures
        within_of(plist_text(exe, log, r)) == r.within,
{
    let p = plist_text(exe, log, r);
    let kw = "--within"@;
    let w = signed_decimal(r.within as int);
    let oa = args_at(exe);
    lemma_plist_layout(exe, log, r);
    lemma_markers();
    lemma_head_scan();
    lemma_args_scan();
    lemma_schedule_scan();
    lemma_signed_decimal(r.within as int);
    reveal_strlit("</string>");
    // the first `--within` is the argument's
    lemma_ruled_out(p, 0, plist_head(), kw, 0, 284);
    lemma_absent_inside(p, 284, exe, kw);
    lemma_ruled_out(p, oa, plist_args(), kw, -7, 79);
    assert(p.subrange(oa + 79, oa + 87) =~= plist_args().subrange(79, 87));
    lemma_find_first(p, kw, oa + 79);
    // after it: `<string>`, the value, `</string>`
    let rest = p.skip(oa + 87);
    lemma_ruled_out(p, oa, plist_args(), "<string>"@, 87, 101);
    lemma_ruled_out(p, oa, plist_args(), kw, 87, 109);
    lemma_number_region(p, within_at(exe), r.within as int, kw);
    lemma_ruled_out(p, schedule_at(exe, r), plist_schedule(), kw, 0, 9);
    assert forall|j: int| 0 <= j < 14 implies !occurs_at(rest, "<string>"@, j) by {
        if occurs_at(rest, "<string>"@, j) {
            lemma_occurs_skip(p, oa + 87, "<string>"@, j);
        }
    }
    assert forall|j: int| 0 <= j < 22 + w.len() as int + 9 implies !occurs_at(rest, kw, j) by {
        if occurs_at(rest, kw, j) {
            lemma_occurs_skip(p, oa + 87, kw, j);
        }
    }
    assert(rest.subrange(14, 22) =~= plist_args().subrange(101, 109));
    assert(rest.subrange(22, 22 + w.len() as int) =~= w);
    assert(rest.subrange(22 + w.len() as int, 22 + w.len() as int + 9) =~= plist_schedule().subrange(0, 9));
    lemma_field_after(p, rest, kw, oa + 79, "<string>"@, "</string>"@, 14, w);
    lemma_trim_plain(w);
    lemma_parse_signed(r.within);
}

/// The hour of a written plist reads back as written.
proof fn lemma_reads_hour(exe: Seq<char>, log: Seq<char>, r: Reminder)
    requires
        !contains_text(exe, "<key>Hour</key>"@),
    ensures
        integer_after_key(plist_text(exe, log, r), "Hour"@) == Some(r.hour),
{
    let p = plist_text(exe, log, r);
    let kh = hour_key();
    let h = decimal(r.hour as nat);
    let os = schedule_at(exe, r);
    lemma_plist_layout(exe, log, r);
    lemma_markers();
    lemma_head_scan();
    lemma_args_scan();
    lemma_schedule_scan();
    lemma_minute_scan();
    lemma_decimal(r.hour as nat);
    reveal_strlit("</integer>");
    // the first hour key is the schedule's
    lemma_ruled_out(p, 0, plist_head(), kh, 0, 284);
    lemma_absent_inside(p, 284, exe, kh);
    lemma_ruled_out(p, args_at(exe), plist_args(), kh, -14, 109);
    lemma_number_region(p, within_at(exe), r.within as int, kh);
    lemma_ruled_out(p, os, plist_schedule(), kh, 0, 69);
    assert(p.subrange(os + 69, os + 84) =~= plist_schedule().subrange(69, 84));
    lemma_find_first(p, kh, os + 69);
    // after it: `<integer>`, the hour, `</integer>`
    let rest = p.skip(os + 84);
    assert(signed_decimal(r.hour as int) == h);
    lemma_ruled_out(p, os, plist_schedule(), kh, 84, 93);
    lemma_number_region(p, hour_at(exe, r), r.hour as int, kh);
    lemma_ruled_out(p, minute_key_at(exe, r), plist_minute(), kh, 0, 10);
    assert forall|j: int| 0 <= j < 9 + h.len() as int + 10 implies !occurs_at(rest, kh, j) by {
        if occurs_at(rest, kh, j) {
            lemma_occurs_skip(p, os + 84, kh, j);
        }
    }
    assert(rest.subrange(0, 9) =~= plist_schedule().subrange(84, 93));
    assert(rest.subrange(9, 9 + h.len() as int) =~= h);
    assert(rest.subrange(9 + h.len() as int, 9 + h.len() as int + 10) =~= plist_minute().subrange(0, 10));
    lemma_field_after(p, rest, kh, os + 69, "<integer>"@, "</integer>"@, 0, h);
    lemma_trim_plain(h);
    lemma_parse_unsigned(r.hour);
}

/// The minute of a written plist reads back as written.
proof fn lemma_reads_minute(exe: Seq<char>, log: Seq<char>, r: Reminder)
    requires
        !contains_text(exe, "<key>Minute</key>"@),
    ensures
        integer_after_key(plist_text(exe, log, r), "Minute"@) == Some(r.minute),
{
    let p = plist_text(exe, log, r);
    let km = minute_key();
    let m = decimal(r.minute as nat);
    let on = minute_key_at(exe, r);
    lemma_plist_layout(exe, log, r);
    lemma_markers();
    lemma_head_scan();
    lemma_args_scan();
    lemma_schedule_scan();
    lemma_minute_scan();
    lemma_log_scan();
    lemma_decimal(r.minute as nat);
    reveal_strlit("</integer>");
    // the first minute key is the schedule's
    lemma_ruled_out(p, 0, plist_head(), km, 0, 284);
    lemma_absent_inside(p, 284, exe, km);
    lemma_ruled_out(p, args_at(exe), plist_args(), km, -16, 109);
    lemma_number_region(p, within_at(exe), r.within as int, km);
    lemma_ruled_out(p, schedule_at(exe, r), plist_schedule(), km, 0, 93);
    assert(signed_decimal(r.hour as int) == decimal(r.hour as nat));
    lemma_number_region(p, hour_at(exe, r), r.hour as int, km);
    lemma_ruled_out(p, on, plist_minute(), km, 0, 15);
    assert(p.subrange(on + 15, on + 32) =~= plist_minute().subrange(15, 32));
    lemma_find_first(p, km, on + 15);
    // after it: `<integer>`, the minute, `</integer>`
    let rest = p.skip(on + 32);
    assert(signed_decimal(r.minute as int) == m);
    lemma_ruled_out(p, on, plist_minute(), km, 32, 41);
    lemma_number_region(p, minute_at(exe, r), r.minute as int, km);
    lemma_ruled_out(p, log_key_at(exe, r), plist_log(), km, 0, 10);
    assert forall|j: int| 0 <= j < 9 + m.len() as int + 10 implies !occurs_at(rest, km, j) by {
        if occurs_at(rest, km, j) {
            lemma_occurs_skip(p, on + 32, km, j);
        }
    }
    assert(rest.subrange(0, 9) =~= plist_minute().subrange(32, 41));
    assert(rest.subrange(9, 9 + m.len() as int) =~= m);
    assert(rest.subrange(9 + m.len() as int, 9 + m.len() as int + 10) =~= plist_log().subrange(0, 10));
    lemma_field_after(p, rest, km, on + 15, "<integer>"@, "</integer>"@, 0, m);
    lemma_trim_plain(m);
    lemma_parse_unsigned(r.minute);
}

/// A plist written by `plist_xml` reads back through `parse_status` as the
/// reminder it was written from, whatever the log path, for every program
/// path holding none of the markers the reader looks for (`--within`,
/// `<key>Hour</key>`, `<key>Minute</key>`).
pub proof fn plist_round_trip(exe: Seq<char>, log: Seq<char>, r: Reminder)
    requires
        !contains_text(exe, "--within"@),
        !contains_text(exe, "<key>Hour</key>"@),
        !contains_text(exe, "<key>Minute</key>"@),
    ensures
        status_of(plist_text(exe, log, r)) == Some(r),
{
    lemma_reads_within(exe, log, r);
    lemma_reads_hour(exe, log, r);
    lemma_reads_minute(exe, log, r);
}

} // verus!
