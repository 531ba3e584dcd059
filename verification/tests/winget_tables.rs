use tinyget::{clean_line, is_valid_id, parse_table, upgrade_command, PinKind};

/// Real output from a zh-CN machine: localized headers, CJK glyphs in the
/// header occupying two cells each, and a summary line right under the rows.
const UPGRADE_ZH: &str = "\
名称                                 ID                       版本         可用         源
----------------------------------------------------------------------------------------------
Comfy Desktop 1.0.39                 Comfy.ComfyUI-Desktop    1.0.39       1.0.46       winget
MicroDicom DICOM Viewer (64-bit)     MicroDicom.DICOMViewer   2026.1       2026.3       winget
Rustup: the Rust toolchain installer Rustlang.Rustup          1.29.0       1.29.1       winget
7 升级可用。";

const PIN_ZH: &str = "\
名称                                 ID              版本   源     包钉类型
---------------------------------------------------------------------------
Rustup: the Rust toolchain installer Rustlang.Rustup 1.29.0 winget Pinning
WinRAR 7.22 (64-bit)                 RARLab.WinRAR   7.22.0 winget Blocking";

/// English headers put a space inside "Pin type", which defeats header-based
/// column detection and must fall through to the right-split path.
const PIN_EN: &str = "\
Name                                 Id              Version Source Pin type
----------------------------------------------------------------------------
Rustup: the Rust toolchain installer Rustlang.Rustup 1.29.0  winget Pinning";

#[test]
fn parses_localized_upgrade_table() {
    let ups = parse_table(UPGRADE_ZH, 5);
    assert_eq!(ups.len(), 3, "summary line must not be read as a row");
    assert_eq!(ups[0][0], "Comfy Desktop 1.0.39");
    assert_eq!(ups[0][1], "Comfy.ComfyUI-Desktop");
    assert_eq!(ups[0][2], "1.0.39");
    assert_eq!(ups[0][3], "1.0.46");
    // The name column is only one space from the identifier on this row.
    assert_eq!(ups[2][0], "Rustup: the Rust toolchain installer");
    assert_eq!(ups[2][1], "Rustlang.Rustup");
}

#[test]
fn parses_pin_table_in_either_language() {
    let zh = parse_table(PIN_ZH, 5);
    assert_eq!(zh.len(), 2);
    assert_eq!(PinKind::parse(&zh[0][4]), Some(PinKind::Pinning));
    assert_eq!(PinKind::parse(&zh[1][4]), Some(PinKind::Blocking));
    assert_eq!(zh[1][0], "WinRAR 7.22 (64-bit)");

    let en = parse_table(PIN_EN, 5);
    assert_eq!(en.len(), 1, "space in \"Pin type\" must fall back to right-split");
    assert_eq!(en[0][0], "Rustup: the Rust toolchain installer");
    assert_eq!(en[0][1], "Rustlang.Rustup");
    assert_eq!(en[0][4], "Pinning");
}

#[test]
fn empty_pin_list_yields_no_rows() {
    assert!(parse_table("没有已配置包钉。", 5).is_empty());
    assert!(parse_table("", 5).is_empty());
}

#[test]
fn strips_progress_spinner_and_ansi() {
    assert_eq!(clean_line("  \\\r  |\rReal text"), "Real text");
    assert_eq!(clean_line("\u{1b}[32mgreen\u{1b}[0m"), "green");
}

#[test]
fn whole_selection_goes_out_as_one_command() {
    let ids = vec!["Rustlang.Rustup".to_string(), "RARLab.WinRAR".to_string()];
    assert_eq!(
        upgrade_command(&ids),
        "winget upgrade Rustlang.Rustup RARLab.WinRAR --exact --include-unknown"
    );
}

#[test]
fn rejects_identifiers_that_are_not_identifiers() {
    assert!(is_valid_id("Microsoft.PowerToys"));
    assert!(is_valid_id("9NKSQGP7F2NH"));
    assert!(!is_valid_id("rm -rf &"));
    assert!(!is_valid_id("包钉"));
    assert!(!is_valid_id(""));
}
