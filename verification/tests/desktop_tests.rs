use linch_core::desktop::parse_desktop_entry;
use linch_core::item::Item;

#[test]
fn reads_the_desktop_entry_group() {
    let text = "[Desktop Entry]\nName=Firefox\nExec=firefox %u\nIcon=firefox\nPath=/opt/firefox\n";
    match parse_desktop_entry(text, "/usr/share/applications/firefox.desktop") {
        Some(Item::DesktopEntry { name, file, exec_cmd, icon, work_dir, hidden }) => {
            assert_eq!(name, "Firefox");
            assert_eq!(file, "/usr/share/applications/firefox.desktop");
            assert_eq!(exec_cmd.as_deref(), Some("firefox %u"));
            assert_eq!(icon.as_deref(), Some("firefox"));
            assert_eq!(work_dir.as_deref(), Some("/opt/firefox"));
            assert!(!hidden);
        }
        _ => panic!("a named entry should parse"),
    }
}

#[test]
fn entry_without_name_is_nothing() {
    assert!(parse_desktop_entry("[Desktop Entry]\nExec=x\n", "f.desktop").is_none());
    assert!(parse_desktop_entry("", "f.desktop").is_none());
}

#[test]
fn other_groups_are_ignored_and_stop_the_scan() {
    let text = "junk\n[Desktop Entry]\nName=App\n[Desktop Action new]\nName=Other\n";
    match parse_desktop_entry(text, "a.desktop") {
        Some(Item::DesktopEntry { name, .. }) => assert_eq!(name, "App"),
        _ => panic!("the first group names the entry"),
    }
    // A file that opens with a different group never reaches the entry.
    assert!(parse_desktop_entry("[Other]\n[Desktop Entry]\nName=App\n", "a.desktop").is_none());
}

#[test]
fn hidden_and_nodisplay_mark_the_entry() {
    let hidden = |text: &str| match parse_desktop_entry(text, "a.desktop") {
        Some(Item::DesktopEntry { hidden, .. }) => hidden,
        _ => panic!("entry should parse"),
    };
    assert!(hidden("[Desktop Entry]\nName=A\nHidden=true\n"));
    assert!(hidden("[Desktop Entry]\nName=A\nNoDisplay=true\n"));
    assert!(!hidden("[Desktop Entry]\nName=A\nHidden=false\n"));
    assert!(!hidden("[Desktop Entry]\nName=A\nHidden=maybe\n"));
}

#[test]
fn later_keys_override_and_whitespace_is_trimmed() {
    let text = "[Desktop Entry]\n  Name = First \nName=Second\n";
    match parse_desktop_entry(text, "a.desktop") {
        Some(Item::DesktopEntry { name, .. }) => assert_eq!(name, "Second"),
        _ => panic!("entry should parse"),
    }
    let text2 = "[Desktop Entry]\nName = Spaced App \n";
    match parse_desktop_entry(text2, "a.desktop") {
        Some(Item::DesktopEntry { name, .. }) => assert_eq!(name, "Spaced App"),
        _ => panic!("entry should parse"),
    }
}
