use tinyget::upgrade::{
    outcome_note, sentinel_code, watch_step, UpgradeOutcome, WatchAction, WatchEvent, WatchPhase,
};
use tinyget::{
    add_pin, failure_reason, is_valid_id, list_pins, list_upgrades, pin_change_result,
    remove_pin, upgrade_command, upgrade_script, version, Error, Output, PinKind,
};

fn output(stdout: &str, ok: bool) -> Output {
    Output { stdout: stdout.to_string(), ok }
}

const UPGRADES_EN: &str = "\
Name                                 Id                       Version      Available    Source
----------------------------------------------------------------------------------------------
Comfy Desktop 1.0.39                 Comfy.ComfyUI-Desktop    1.0.39       1.0.46       winget
Rustup: the Rust toolchain installer Rustlang.Rustup          1.29.0       1.29.1       winget
2 upgrades available.";

const PINS_EN: &str = "\
Name                                 Id              Version Source Pin type
----------------------------------------------------------------------------
Rustup: the Rust toolchain installer Rustlang.Rustup 1.29.0  winget Pinning
WinRAR 7.22 (64-bit)                 RARLab.WinRAR   7.22.0  winget Blocking
Some Tool                            Some.Tool       1.0     winget Gating
Odd Thing                            Odd.Thing       1.0     winget Mystery";

#[test]
fn pin_kind_names_read_back() {
    for k in [PinKind::Pinning, PinKind::Blocking, PinKind::Gating] {
        assert_eq!(PinKind::parse(k.as_str()), Some(k));
    }
    assert_eq!(PinKind::parse("  Blocking \t"), Some(PinKind::Blocking));
    assert_eq!(PinKind::parse("blocking"), None);
    assert_eq!(PinKind::parse(""), None);
}

#[test]
fn version_is_trimmed() {
    assert_eq!(version(&output("v1.9.25200\r\n", true)), "v1.9.25200");
}

#[test]
fn upgrades_are_read_from_the_table() {
    let ups = list_upgrades(&output(UPGRADES_EN, true)).unwrap();
    assert_eq!(ups.len(), 2);
    assert_eq!(ups[0].name, "Comfy Desktop 1.0.39");
    assert_eq!(ups[0].id, "Comfy.ComfyUI-Desktop");
    assert_eq!(ups[0].current, "1.0.39");
    assert_eq!(ups[0].available, "1.0.46");
    assert_eq!(ups[1].id, "Rustlang.Rustup");
}

#[test]
fn failed_listing_reports_the_last_line() {
    let out = output("Searching...\r\n\u{1b}[31mFailed in attempting to update the source: winget\u{1b}[0m\r\n\r\n", false);
    let e = list_upgrades(&out).unwrap_err();
    assert_eq!(e.message(), "Failed in attempting to update the source: winget");
    // Rows are still rows when winget reports failure.
    assert_eq!(list_upgrades(&output(UPGRADES_EN, false)).unwrap().len(), 2);
    // No rows and success is an empty list, not an error.
    assert_eq!(list_upgrades(&output("No installed package found.", true)).unwrap().len(), 0);
}

#[test]
fn failure_reason_is_never_blank() {
    assert_eq!(failure_reason(""), "winget reported an error.");
    assert_eq!(failure_reason("  \r\n\t\n"), "winget reported an error.");
    assert_eq!(failure_reason("first\nsecond\n   \n"), "second");
}

#[test]
fn pins_keep_only_known_kinds() {
    let pins = list_pins(&output(PINS_EN, true)).unwrap();
    assert_eq!(pins.len(), 3);
    assert_eq!(pins[0].id, "Rustlang.Rustup");
    assert_eq!(pins[0].kind, PinKind::Pinning);
    assert_eq!(pins[1].name, "WinRAR 7.22 (64-bit)");
    assert_eq!(pins[1].kind, PinKind::Blocking);
    assert_eq!(pins[2].kind, PinKind::Gating);
    let e = list_pins(&output("boom", false)).unwrap_err();
    assert_eq!(e.message(), "boom");
}

#[test]
fn pin_commands_carry_the_identifier() {
    assert_eq!(
        add_pin("RARLab.WinRAR", true).unwrap(),
        vec!["pin", "add", "--id", "RARLab.WinRAR", "--exact", "--accept-source-agreements", "--blocking"]
    );
    assert_eq!(
        add_pin("RARLab.WinRAR", false).unwrap(),
        vec!["pin", "add", "--id", "RARLab.WinRAR", "--exact", "--accept-source-agreements"]
    );
    assert_eq!(
        remove_pin("Rustlang.Rustup").unwrap(),
        vec!["pin", "remove", "--id", "Rustlang.Rustup", "--exact", "--accept-source-agreements"]
    );
}

#[test]
fn pin_commands_refuse_what_is_not_an_identifier() {
    let e = add_pin("rm -rf &", false).unwrap_err();
    assert_eq!(e.message(), "\"rm -rf &\" is not a usable package identifier.");
    let e = remove_pin("a\"b").unwrap_err();
    assert_eq!(e.message(), "\"a\\\"b\" is not a usable package identifier.");
}

#[test]
fn pin_change_result_follows_winget() {
    assert!(pin_change_result(&output("Pin added", true)).is_ok());
    let e = pin_change_result(&output("There is no pin for the package.\n", false)).unwrap_err();
    assert_eq!(e.message(), "There is no pin for the package.");
}

#[test]
fn launch_failures_say_what_happened() {
    assert_eq!(
        Error::from_launch_failure(true, "ignored").message(),
        "winget was not found. Install the App Installer package from the Microsoft Store, then reopen tinyget."
    );
    assert_eq!(
        Error::from_launch_failure(false, "Access is denied. (os error 5)").message(),
        "Could not run winget: Access is denied. (os error 5)"
    );
}

#[test]
fn upgrade_script_for_one_and_for_two() {
    let one = vec!["Rustlang.Rustup".to_string()];
    assert_eq!(
        upgrade_script(&one, "C:\\Temp\\tinyget-upgrade.done").unwrap(),
        "@echo off\r\ntitle tinyget - upgrading 1 package\r\nwinget upgrade Rustlang.Rustup --exact --include-unknown\r\n>\"C:\\Temp\\tinyget-upgrade.done\" echo %ERRORLEVEL%\r\necho.\r\necho Finished. Press any key to close this window.\r\npause > nul\r\n"
    );
    let two = vec!["Rustlang.Rustup".to_string(), "RARLab.WinRAR".to_string()];
    let script = upgrade_script(&two, "s").unwrap();
    assert!(script.starts_with("@echo off\r\ntitle tinyget - upgrading 2 packages\r\nwinget upgrade Rustlang.Rustup RARLab.WinRAR --exact"));
}

#[test]
fn upgrade_script_refusals() {
    let none: Vec<String> = Vec::new();
    assert_eq!(upgrade_script(&none, "s").unwrap_err().message(), "No packages are selected.");
    let bad = vec!["Good.Id".to_string(), "bad id".to_string(), "also bad".to_string()];
    assert_eq!(
        upgrade_script(&bad, "s").unwrap_err().message(),
        "\"bad id\" is not a usable package identifier."
    );
}

#[test]
fn sentinel_codes_read_back() {
    assert_eq!(sentinel_code("0\r\n"), 0);
    assert_eq!(sentinel_code("-1978335189 \r\n"), -1978335189);
    assert_eq!(sentinel_code("+7"), 7);
    assert_eq!(sentinel_code("2147483647"), i32::MAX);
    assert_eq!(sentinel_code("-2147483648"), i32::MIN);
    assert_eq!(sentinel_code("2147483648"), 0);
    assert_eq!(sentinel_code("99999999999999999999"), 0);
    assert_eq!(sentinel_code("12x"), 0);
    assert_eq!(sentinel_code("-"), 0);
    assert_eq!(sentinel_code(""), 0);
    for code in [0, 1, -1, 42, i32::MAX, i32::MIN] {
        assert_eq!(sentinel_code(&format!("{code}\r\n")), code);
    }
}

#[test]
fn watch_reports_what_the_sentinel_says() {
    assert_eq!(watch_step(WatchPhase::Polling, WatchEvent::SentinelRead(Some(3))), (WatchPhase::Polling, WatchAction::Report(UpgradeOutcome::Finished(3))));
    assert_eq!(watch_step(WatchPhase::Polling, WatchEvent::SentinelRead(None)), (WatchPhase::Polling, WatchAction::CheckTerminal));
    assert_eq!(watch_step(WatchPhase::Polling, WatchEvent::TerminalChecked(false)), (WatchPhase::Polling, WatchAction::SleepThenReadSentinel));
    assert_eq!(watch_step(WatchPhase::Polling, WatchEvent::TerminalChecked(true)), (WatchPhase::Rechecking, WatchAction::ReadSentinel));
    assert_eq!(watch_step(WatchPhase::Rechecking, WatchEvent::SentinelRead(Some(0))), (WatchPhase::Rechecking, WatchAction::Report(UpgradeOutcome::Finished(0))));
    assert_eq!(watch_step(WatchPhase::Rechecking, WatchEvent::SentinelRead(None)), (WatchPhase::Rechecking, WatchAction::Report(UpgradeOutcome::TerminalClosed)));
}

#[test]
fn outcome_notes() {
    assert_eq!(outcome_note(UpgradeOutcome::Finished(0)), "Upgrade finished.");
    assert_eq!(
        outcome_note(UpgradeOutcome::Finished(-1978335189)),
        "winget exited with code -1978335189. The terminal has the detail."
    );
    assert_eq!(
        outcome_note(UpgradeOutcome::Finished(i32::MIN)),
        "winget exited with code -2147483648. The terminal has the detail."
    );
    assert_eq!(
        outcome_note(UpgradeOutcome::Finished(5)),
        "winget exited with code 5. The terminal has the detail."
    );
    assert_eq!(
        outcome_note(UpgradeOutcome::TerminalClosed),
        "The terminal closed before winget reported."
    );
}

#[test]
fn options_are_never_taken_for_identifiers() {
    assert!(!is_valid_id("--silent"));
    assert!(!is_valid_id("-x"));
    assert!(is_valid_id("x-"));
    let e = add_pin("--silent", false).unwrap_err();
    assert_eq!(e.message(), "\"--silent\" is not a usable package identifier.");
    let e = remove_pin("--accept-package-agreements").unwrap_err();
    assert_eq!(e.message(), "\"--accept-package-agreements\" is not a usable package identifier.");
    let ids = vec!["Good.Id".to_string(), "--silent".to_string()];
    assert_eq!(
        upgrade_script(&ids, "s").unwrap_err().message(),
        "\"--silent\" is not a usable package identifier."
    );
}

#[test]
fn upgrade_command_splits_back_into_its_words() {
    let ids = vec!["Rustlang.Rustup".to_string(), "RARLab.WinRAR".to_string()];
    let cmd = upgrade_command(&ids);
    let words: Vec<&str> = cmd.split(' ').collect();
    assert_eq!(
        words,
        vec!["winget", "upgrade", "Rustlang.Rustup", "RARLab.WinRAR", "--exact", "--include-unknown"]
    );
    let script = upgrade_script(&ids, "s").unwrap();
    assert_eq!(script.lines().nth(2), Some(cmd.as_str()));
}
