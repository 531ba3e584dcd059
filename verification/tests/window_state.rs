use tinyget::{clock, client_version_label, Error, Pin, PinKind, State, Upgrade};

fn up(name: &str, id: &str) -> Upgrade {
    Upgrade {
        name: name.to_string(),
        id: id.to_string(),
        current: "1.0".to_string(),
        available: "2.0".to_string(),
    }
}

fn pin(id: &str, kind: PinKind) -> Pin {
    Pin { name: id.to_string(), id: id.to_string(), kind }
}

fn state_with(ids: &[(&str, &str)]) -> State {
    let mut s = State::new();
    let ups = ids.iter().map(|(n, i)| up(n, i)).collect();
    let msg = s.apply_scan(Ok(ups), Ok(Vec::new()), String::new());
    assert_eq!(msg, "");
    s
}

#[test]
fn toggling_twice_restores_the_selection() {
    let mut s = state_with(&[("Rustup", "Rustlang.Rustup"), ("WinRAR", "RARLab.WinRAR")]);
    s.toggle("Rustlang.Rustup");
    assert!(s.is_selected("Rustlang.Rustup"));
    assert_eq!(s.selected_ids(), vec!["Rustlang.Rustup"]);
    s.toggle("Rustlang.Rustup");
    assert!(!s.is_selected("Rustlang.Rustup"));
    assert!(s.selected_ids().is_empty());
}

#[test]
fn selected_ids_follow_display_order() {
    let mut s = state_with(&[("A", "A.A"), ("B", "B.B"), ("C", "C.C")]);
    s.toggle("C.C");
    s.toggle("A.A");
    assert_eq!(s.selected_ids(), vec!["A.A", "C.C"]);
    assert_eq!(s.command_preview(), "winget upgrade A.A C.C --exact --include-unknown");
}

#[test]
fn filter_matches_name_or_id_ignoring_case() {
    let mut s = state_with(&[("Rustup", "Rustlang.Rustup"), ("WinRAR", "RARLab.WinRAR"), ("Ärger", "X.Y")]);
    s.set_filter("  RUST ");
    assert_eq!(s.filter(), "RUST");
    let v: Vec<&str> = s.visible().iter().map(|u| u.id.as_str()).collect();
    assert_eq!(v, vec!["Rustlang.Rustup"]);
    s.set_filter("rarlab");
    let v: Vec<&str> = s.visible().iter().map(|u| u.id.as_str()).collect();
    assert_eq!(v, vec!["RARLab.WinRAR"]);
    s.set_filter("äR");
    let v: Vec<&str> = s.visible().iter().map(|u| u.id.as_str()).collect();
    assert_eq!(v, vec!["X.Y"]);
    s.set_filter("");
    assert_eq!(s.visible().len(), 3);
}

#[test]
fn select_all_leaves_hidden_rows_alone() {
    let mut s = state_with(&[("Rustup", "Rustlang.Rustup"), ("Rust analyzer", "Rust.Analyzer"), ("WinRAR", "RARLab.WinRAR")]);
    s.toggle("RARLab.WinRAR");
    s.set_filter("rust");
    s.select_all();
    assert!(s.is_selected("Rustlang.Rustup"));
    assert!(s.is_selected("Rust.Analyzer"));
    assert!(s.is_selected("RARLab.WinRAR"));
    // All visible rows are ticked now, so the next one clears them.
    s.select_all();
    assert!(!s.is_selected("Rustlang.Rustup"));
    assert!(!s.is_selected("Rust.Analyzer"));
    assert!(s.is_selected("RARLab.WinRAR"));
}

#[test]
fn rescan_drops_selections_no_longer_offered() {
    let mut s = state_with(&[("A", "A.A"), ("B", "B.B")]);
    s.toggle("A.A");
    s.toggle("B.B");
    let msg = s.apply_scan(Ok(vec![up("B", "B.B")]), Ok(vec![pin("P.P", PinKind::Blocking)]), "note".to_string());
    assert_eq!(msg, "note");
    assert!(!s.is_selected("A.A"));
    assert!(s.is_selected("B.B"));
    assert_eq!(s.selected_ids(), vec!["B.B"]);
    assert_eq!(s.pins().len(), 1);
}

#[test]
fn scan_problems_win_over_the_note() {
    let mut s = state_with(&[("A", "A.A")]);
    s.toggle("A.A");
    let e1 = Error::from_launch_failure(false, "one");
    let e2 = Error::from_launch_failure(false, "two");
    let msg = s.apply_scan(Err(e1), Err(e2), "note".to_string());
    assert_eq!(msg, "Could not run winget: one");
    // A failed listing keeps what was there.
    assert_eq!(s.upgrades().len(), 1);
    assert!(s.is_selected("A.A"));
    let e2 = Error::from_launch_failure(false, "two");
    let msg = s.apply_scan(Ok(vec![up("A", "A.A")]), Err(e2), "note".to_string());
    assert_eq!(msg, "Could not run winget: two");
}

#[test]
fn pin_counts_and_empty_preview() {
    let mut s = State::new();
    let pins = vec![pin("A", PinKind::Pinning), pin("B", PinKind::Blocking), pin("C", PinKind::Gating)];
    s.apply_scan(Ok(Vec::new()), Ok(pins), String::new());
    assert_eq!(s.blocking_count(), 1);
    assert_eq!(s.pinning_count(), 2);
    assert_eq!(s.command_preview(), "Select at least one package.");
}

#[test]
fn clock_labels() {
    assert_eq!(clock(0), "00:00:00");
    assert_eq!(clock(3661), "01:01:01");
    assert_eq!(clock(86399), "23:59:59");
    assert_eq!(clock(86400 * 19000 + 45296), "12:34:56");
}

#[test]
fn client_version_drops_the_leading_v() {
    assert_eq!(client_version_label("v1.9.25200"), "1.9.25200");
    assert_eq!(client_version_label("1.2"), "1.2");
    assert_eq!(client_version_label("vv"), "");
}
