use hifzsdk::studio::{connect_action, entry_step, scan_swift_file, wants_disconnect, ConnectAction, EntryStep};

const MARK: &str = "// HifzSDK wired";

#[test]
fn scan_empty_and_wired() {
    let f = scan_swift_file("", MARK);
    assert!(f.empty && !f.wired);
    let f = scan_swift_file(" \n\t \r\n", MARK);
    assert!(f.empty && !f.wired);
    let f = scan_swift_file("  // HifzSDK wired  \r\nimport SwiftUI\n", MARK);
    assert!(!f.empty && f.wired);
    let f = scan_swift_file("import SwiftUI\n// HifzSDK wired\n", MARK);
    assert!(!f.empty && !f.wired);
}

#[test]
fn connect_empty_file_writes_wrapper() {
    assert!(matches!(connect_action("", MARK), ConnectAction::WriteWrapper));
    assert!(matches!(connect_action("  \n\n", MARK), ConnectAction::WriteWrapper));
}

#[test]
fn connect_wired_file_is_left_alone() {
    assert!(matches!(connect_action("\n  // HifzSDK wired\n\nstruct A {}", MARK), ConnectAction::AlreadyConnected));
}

#[test]
fn connect_splices_marker_onto_line_one() {
    match connect_action("import SwiftUI\r\nstruct App {}\n", MARK) {
        ConnectAction::Splice(s) => assert_eq!(s, "// HifzSDK wired\n\nimport SwiftUI\r\nstruct App {}\n"),
        other => panic!("unexpected {:?}", other),
    }
    match connect_action("a\n\nb\r", MARK) {
        ConnectAction::Splice(s) => assert_eq!(s, "// HifzSDK wired\n\na\n\nb\r"),
        other => panic!("unexpected {:?}", other),
    }
}

#[test]
fn spliced_file_scans_wired_and_reconnects_as_is() {
    let s = match connect_action("let x = 1\n", MARK) {
        ConnectAction::Splice(s) => s,
        other => panic!("unexpected {:?}", other),
    };
    let f = scan_swift_file(&s, MARK);
    assert!(f.wired && !f.empty);
    assert!(matches!(connect_action(&s, MARK), ConnectAction::AlreadyConnected));
}

#[test]
fn disconnect_action() {
    assert!(wants_disconnect("disconnect"));
    assert!(!wants_disconnect("connect"));
    assert!(!wants_disconnect(""));
    assert!(!wants_disconnect("Disconnect"));
}

#[test]
fn search_steps() {
    assert_eq!(entry_step(true, Some(".git"), "hifzsdk.swift"), EntryStep::Skip);
    assert_eq!(entry_step(true, Some("DerivedData"), "hifzsdk.swift"), EntryStep::Skip);
    assert_eq!(entry_step(true, Some("build"), "hifzsdk.swift"), EntryStep::Skip);
    assert_eq!(entry_step(true, Some("builds"), "hifzsdk.swift"), EntryStep::Descend);
    assert_eq!(entry_step(true, None, "hifzsdk.swift"), EntryStep::Descend);
    assert_eq!(entry_step(false, Some("hifzsdk.swift"), "hifzsdk.swift"), EntryStep::Found);
    assert_eq!(entry_step(false, Some("HifzSDK.swift"), "hifzsdk.swift"), EntryStep::Pass);
    assert_eq!(entry_step(false, None, "hifzsdk.swift"), EntryStep::Pass);
    assert_eq!(entry_step(true, Some("hifzsdk.swift"), "hifzsdk.swift"), EntryStep::Descend);
}

#[test]
fn splice_keeps_the_code_byte_for_byte() {
    let raw = "import SwiftUI\r\n\nstruct App {}\n";
    match connect_action(raw, MARK) {
        ConnectAction::Splice(s) => assert_eq!(s, format!("{}\n\n{}", MARK, raw)),
        other => panic!("unexpected {:?}", other),
    }
}

#[test]
fn wired_scan_means_already_connected() {
    let raw = "\t// HifzSDK wired \r\nimport SwiftUI";
    assert!(scan_swift_file(raw, MARK).wired);
    assert!(matches!(connect_action(raw, MARK), ConnectAction::AlreadyConnected));
}

#[test]
fn whitespace_is_chars_is_whitespace() {
    for u in 0u32..=0x10ffff {
        if let Some(c) = char::from_u32(u) {
            assert_eq!(hifzsdk::text::is_white_space(c), c.is_whitespace(), "U+{:04X}", u);
        }
    }
}

#[test]
fn search_pushes_directories_and_stops_at_the_file() {
    let mut stack = vec![0u32];
    let entries = vec![
        (1u32, true, Some("Sources".to_string())),
        (2, true, Some(".git".to_string())),
        (3, false, Some("README.md".to_string())),
        (4, false, Some("hifzsdk.swift".to_string())),
        (5, true, Some("Later".to_string())),
    ];
    let found = hifzsdk::studio::search_entries(&mut stack, entries, "hifzsdk.swift");
    assert_eq!(found, Some(4));
    assert_eq!(stack, vec![0, 1]);
    let mut stack2: Vec<u32> = Vec::new();
    let none = hifzsdk::studio::search_entries(
        &mut stack2,
        vec![(7, true, None), (8, true, Some("build".to_string())), (9, true, Some("App".to_string()))],
        "hifzsdk.swift",
    );
    assert_eq!(none, None);
    assert_eq!(stack2, vec![7, 9]);
}

#[test]
fn blank_text_scans_empty() {
    assert!(scan_swift_file(" ", MARK).empty);
    assert!(scan_swift_file("\u{3000}\u{a0}\n", MARK).empty);
}
