//! Following an upgrade that runs in a terminal window of its own: reading the
//! exit code it leaves behind, deciding when it is over, and saying how it went.

use vstd::prelude::*;
use vstd::string::StringExecFns;
use crate::text::{chars_of, decimal, digit, is_ws, owned, push_decimal, trim, trim_at, trim_end, trim_start};

verus! {

#[derive(Debug, Clone, Copy, PartialEq, Eq, Structural)]
pub enum UpgradeOutcome {
    /// winget ran to completion and reported this exit code. The terminal is
    /// still open on its "press any key" prompt, so the output stays readable.
    Finished(i32),
    /// The window went away before winget reported: closed by hand, or it never
    /// got that far.
    TerminalClosed,
}

// ------------------------------------------------------------ the exit code

/// An ASCII decimal digit.
pub open spec fn is_digit(c: char) -> bool {
    '0' <= c && c <= '9'
}

/// The number the decimal digits `s` spell.
pub open spec fn digits_value(s: Seq<char>) -> nat
    decreases s.len(),
{
    if s.len() == 0 {
        0
    } else {
        digits_value(s.drop_last()) * 10 + ((s.last() as int) - ('0' as int)) as nat
    }
}

/// `s` without a leading sign.
pub open spec fn unsigned_part(s: Seq<char>) -> Seq<char> {
    if s.len() > 0 && (s[0] == '-' || s[0] == '+') {
        s.drop_first()
    } else {
        s
    }
}

/// `s` read as an `i32`, as `str::parse::<i32>` reads it: an optional sign, then
/// one or more decimal digits, and a value in range.
pub open spec fn parse_i32(s: Seq<char>) -> Option<i32> {
    let neg = s.len() > 0 && s[0] == '-';
    let digits = unsigned_part(s);
    if digits.len() == 0 || !(forall|i: int| 0 <= i < digits.len() ==> is_digit(digits[i])) {
        None
    } else {
        let v: int = if neg {
            -(digits_value(digits) as int)
        } else {
            digits_value(digits) as int
        };
        if i32::MIN <= v <= i32::MAX {
            Some(v as i32)
        } else {
            None
        }
    }
}

/// The exit code recorded in the sentinel file's text; one that does not read
/// as a number counts as 0.
pub open spec fn sentinel_code_of(text: Seq<char>) -> i32 {
    match parse_i32(trim(text)) {
        Some(c) => c,
        None => 0,
    }
}

/// The exit code the upgrade script wrote to its sentinel file, from the file's
/// text.
pub fn sentinel_code(text: &str) -> (code: i32)
    ensures
        code == sentinel_code_of(text@),
{
    let cs = chars_of(text);
    let (a, b) = trim_at(cs.as_slice(), 0, cs.len());
    assert(cs@.subrange(0, cs@.len() as int) =~= cs@);
    let ghost t = cs@.subrange(a as int, b as int);
    let neg = a < b && cs[a] == '-';
    let start = if a < b && (cs[a] == '-' || cs[a] == '+') {
        a + 1
    } else {
        a
    };
    let ghost digits = cs@.subrange(start as int, b as int);
    assert(t == trim(text@));
    assert(digits =~= unsigned_part(t));
    if start == b {
        return 0;
    }
    // Saturates: any magnitude at `cap` or above is out of range for either sign.
    let cap: u64 = 2147483649;
    let mut acc: u64 = 0;
    let mut i = start;
    assert(digits.take(0) =~= Seq::<char>::empty());
    while i < b
        invariant
            start <= i <= b <= cs@.len(),
            digits == cs@.subrange(start as int, b as int),
            digits == unsigned_part(trim(text@)),
            cap == 2147483649,
            acc == if digits_value(digits.take(i - start)) < cap {
                digits_value(digits.take(i - start))
            } else {
                cap as nat
            },
            forall|k: int| 0 <= k < i - start ==> is_digit(digits[k]),
        decreases b - i,
    {
        let c = cs[i];
        if !('0' <= c && c <= '9') {
            assert(!is_digit(digits[i - start]));
            return 0;
        }
        assert(digits.take(i - start + 1).drop_last() =~= digits.take(i - start));
        let d = (c as u32 - '0' as u32) as u64;
        acc = if acc * 10 + d < cap {
            acc * 10 + d
        } else {
            cap
        };
        i = i + 1;
    }
    assert(digits.take(b - start) =~= digits);
    if neg {
        if acc <= 2147483648 {
            (0 - (acc as i64)) as i32
        } else {
            0
        }
    } else {
        if acc <= 2147483647 {
            acc as i32
        } else {
            0
        }
    }
}

// ------------------------------------------------------------ waiting for it

/// Where the watch on a running upgrade stands.
#[derive(Debug, Clone, Copy, PartialEq, Eq, Structural)]
pub enum WatchPhase {
    /// The terminal is open, or was when last looked at.
    Polling,
    /// The terminal is gone; the sentinel gets one last look.
    Rechecking,
}

/// What was found out since the last step.
#[derive(Debug, Clone, Copy, PartialEq, Eq, Structural)]
pub enum WatchEvent {
    /// The sentinel file was read: the exit code in it, or `None` when it is
    /// not there yet.
    SentinelRead(Option<i32>),
    /// The terminal was asked whether it has exited; `true` when it has, or
    /// when it could not be asked.
    TerminalChecked(bool),
}

/// What to do next.
#[derive(Debug, Clone, Copy, PartialEq, Eq, Structural)]
pub enum WatchAction {
    /// Read the sentinel file now.
    ReadSentinel,
    /// Ask whether the terminal has exited.
    CheckTerminal,
    /// Wait a moment, then read the sentinel file.
    SleepThenReadSentinel,
    /// The upgrade is over.
    Report(UpgradeOutcome),
}

/// One step of the watch. The sentinel is read first each round, and again once
/// more after the terminal has gone, since the window can close in the same tick
/// winget finishes. The watch starts `Polling` by reading the sentinel.
pub open spec fn watch(phase: WatchPhase, event: WatchEvent) -> (WatchPhase, WatchAction) {
    match (phase, event) {
        (_, WatchEvent::SentinelRead(Some(code))) => (
            phase,
            WatchAction::Report(UpgradeOutcome::Finished(code)),
        ),
        (WatchPhase::Polling, WatchEvent::SentinelRead(None)) => (
            WatchPhase::Polling,
            WatchAction::CheckTerminal,
        ),
        (WatchPhase::Rechecking, WatchEvent::SentinelRead(None)) => (
            WatchPhase::Rechecking,
            WatchAction::Report(UpgradeOutcome::TerminalClosed),
        ),
        (_, WatchEvent::TerminalChecked(true)) => (
            WatchPhase::Rechecking,
            WatchAction::ReadSentinel,
        ),
        (_, WatchEvent::TerminalChecked(false)) => (
            WatchPhase::Polling,
            WatchAction::SleepThenReadSentinel,
        ),
    }
}

/// The next phase and action of the watch on a running upgrade.
///
/// The script writes winget's exit code to a sentinel file *before* it pauses,
/// which keeps "winget finished" and "the user dismissed the window" as separate
/// events. Watching the process alone could only tell the second, and the window
/// deliberately stays open so the output can be read.
pub fn watch_step(phase: WatchPhase, event: WatchEvent) -> (r: (WatchPhase, WatchAction))
    ensures
        r == watch(phase, event),
{
    match event {
        WatchEvent::SentinelRead(Some(code)) => (
            phase,
            WatchAction::Report(UpgradeOutcome::Finished(code)),
        ),
        WatchEvent::SentinelRead(None) => match phase {
            WatchPhase::Polling => (WatchPhase::Polling, WatchAction::CheckTerminal),
            WatchPhase::Rechecking => (
                WatchPhase::Rechecking,
                WatchAction::Report(UpgradeOutcome::TerminalClosed),
            ),
        },
        WatchEvent::TerminalChecked(true) => (WatchPhase::Rechecking, WatchAction::ReadSentinel),
        WatchEvent::TerminalChecked(false) => (
            WatchPhase::Polling,
            WatchAction::SleepThenReadSentinel,
        ),
    }
}

// ------------------------------------------------------------ saying how it went

/// `n` in decimal, with a minus sign when it is negative.
pub open spec fn signed_decimal(n: int) -> Seq<char> {
    if n < 0 {
        seq!['-'] + decimal((-n) as nat)
    } else {
        decimal(n as nat)
    }
}

/// The note shown once an upgrade is over.
pub open spec fn outcome_note_text(outcome: UpgradeOutcome) -> Seq<char> {
    match outcome {
        UpgradeOutcome::Finished(0) => "Upgrade finished."@,
        UpgradeOutcome::Finished(code) => "winget exited with code "@ + signed_decimal(code as int)
            + ". The terminal has the detail."@,
        UpgradeOutcome::TerminalClosed => "The terminal closed before winget reported."@,
    }
}

/// The note shown once an upgrade is over.
pub fn outcome_note(outcome: UpgradeOutcome) -> (note: String)
    ensures
        note@ == outcome_note_text(outcome),
{
    match outcome {
        UpgradeOutcome::Finished(0) => owned("Upgrade finished."),
        UpgradeOutcome::Finished(code) => {
            let mut note = owned("winget exited with code ");
            if code < 0 {
                note.append("-");
                let m = (0 - (code as i64)) as u64;
                push_decimal(&mut note, m);
                proof {
                    reveal_strlit("-");
                }
            } else {
                push_decimal(&mut note, code as u64);
            }
            note.append(". The terminal has the detail.");
            assert(note@ =~= outcome_note_text(outcome));
            note
        },
        UpgradeOutcome::TerminalClosed => owned("The terminal closed before winget reported."),
    }
}


// ------------------------------------------------------------ laws

proof fn lemma_digit_value(d: nat)
    requires
        d < 10,
    ensures
        is_digit(digit(d)),
        (digit(d) as int) - ('0' as int) == d,
{
}

proof fn lemma_decimal_digits(n: nat)
    ensures
        decimal(n).len() > 0,
        forall|i: int| 0 <= i < decimal(n).len() ==> is_digit(#[trigger] decimal(n)[i]),
        digits_value(decimal(n)) == n,
    decreases n,
{
    lemma_digit_value(n % 10);
    if n < 10 {
        assert(decimal(n).drop_last() =~= Seq::<char>::empty());
        assert(decimal(n).last() == digit(n));
        assert(digits_value(decimal(n)) == digits_value(decimal(n).drop_last()) * 10 + ((digit(n) as int) - ('0' as int)) as nat);
        assert(digits_value(decimal(n)) == n);
    } else {
        lemma_decimal_digits(n / 10);
        let d = decimal(n / 10);
        assert(decimal(n) == d.push(digit(n % 10)));
        assert(decimal(n).drop_last() =~= d);
        assert(decimal(n).last() == digit(n % 10));
        assert(n == (n / 10) * 10 + n % 10);
        assert(digits_value(decimal(n)) == digits_value(d) * 10 + ((digit(n % 10) as int) - ('0' as int)) as nat);
        assert(digits_value(decimal(n)) == n);
        assert forall|i: int| 0 <= i < decimal(n).len() implies is_digit(#[trigger] decimal(n)[i]) by {
            if i < d.len() {
                assert(decimal(n)[i] == d[i]);
            }
        }
    }
}

/// What `>"file" echo %ERRORLEVEL%` leaves in the sentinel file: the code in
/// decimal, then the line ending.
pub open spec fn sentinel_file_text(code: i32) -> Seq<char> {
    signed_decimal(code as int) + seq!['\r', '\n']
}

/// The exit code the script writes to the sentinel file is the one read back.
pub proof fn lemma_sentinel_reads_back(code: i32)
    ensures
        sentinel_code_of(sentinel_file_text(code)) == code,
{
    let m: nat = if code < 0 {
        (-(code as int)) as nat
    } else {
        code as nat
    };
    lemma_decimal_digits(m);
    let d = decimal(m);
    let text = signed_decimal(code as int);
    let full = sentinel_file_text(code);
    assert(full.drop_last() =~= text.push('\r'));
    assert(text.push('\r').drop_last() =~= text);
    assert(!is_ws(text.last())) by {
        assert(text.last() == d.last());
        assert(is_digit(d[d.len() - 1]));
    }
    assert(trim_end(full) == trim_end(full.drop_last()));
    assert(trim_end(text.push('\r')) == trim_end(text));
    assert(trim_end(text) == text);
    assert(trim_end(full) == text);
    assert(!is_ws(text[0])) by {
        if code < 0 {
            assert(text[0] == '-');
        } else {
            assert(is_digit(d[0]));
        }
    }
    assert(trim_start(text) == text);
    assert(trim(full) == text) by {
        assert(!is_ws(full[0]));
        assert(trim_start(full) == full);
    }
    if code < 0 {
        assert(unsigned_part(text) =~= d);
    } else {
        assert(unsigned_part(text) == d) by {
            assert(is_digit(d[0]));
        }
    }
}

/// Once the terminal has gone, the next look at the sentinel ends the watch, with
/// the code it holds or as a closed terminal.
pub proof fn lemma_watch_ends_after_terminal_gone(phase: WatchPhase, sentinel: Option<i32>)
    ensures
        watch(phase, WatchEvent::TerminalChecked(true)) == (
            WatchPhase::Rechecking,
            WatchAction::ReadSentinel,
        ),
        watch(WatchPhase::Rechecking, WatchEvent::SentinelRead(sentinel)).1 == WatchAction::Report(
            match sentinel {
                Some(code) => UpgradeOutcome::Finished(code),
                None => UpgradeOutcome::TerminalClosed,
            },
        ),
{
}

} // verus!
