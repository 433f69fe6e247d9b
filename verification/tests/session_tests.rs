use linch_core::item::Item;
use linch_core::nav::{Event, Session, StepResult};
use linch_core::store::FrecencyStore;

fn catalog(names: &[&str]) -> Vec<Item> {
    names
        .iter()
        .map(|n| Item::PathEntry { name: n.to_string(), file: format!("/bin/{}", n) })
        .collect()
}

fn selected_name(s: &Session) -> Option<String> {
    s.selected().map(|i| i.name().to_string())
}

#[test]
fn three_item_literal_scenario() {
    let mut store = FrecencyStore::new();
    let mut s = Session::new(
        catalog(&["alpha", "beta", "gamma"]),
        &store,
        false,
        false,
        true,
        false,
        2,
        2,
    );
    assert_eq!(s.item_at(0).unwrap().name(), "alpha");
    assert_eq!(s.item_at(1).unwrap().name(), "beta");
    assert_eq!(s.item_at(2).unwrap().name(), "gamma");
    assert_eq!(s.filtered_count(), 3);
    assert_eq!(s.cursor_index(), 0);
    assert_eq!(selected_name(&s), Some("alpha".to_string()));

    let r = s.step(Event::TextChanged("g".to_string()), &mut store);
    assert!(matches!(r, StepResult::Continue));
    assert_eq!(s.filtered_count(), 1);
    assert_eq!(s.cursor_index(), 0);
    assert_eq!(selected_name(&s), Some("gamma".to_string()));

    match s.step(Event::Commit, &mut store) {
        StepResult::Done(Some(item)) => assert_eq!(item.name(), "gamma"),
        _ => panic!("commit should return the selected item"),
    }
    assert_eq!(store.len(), 0);
}

#[test]
fn commit_with_cache_records_one_selection() {
    let mut store = FrecencyStore::new();
    let mut s = Session::new(
        catalog(&["alpha", "beta", "gamma"]),
        &store,
        true,
        false,
        true,
        false,
        2,
        2,
    );
    s.step(Event::TextChanged("g".to_string()), &mut store);
    match s.step(Event::Commit, &mut store) {
        StepResult::Done(Some(item)) => assert_eq!(item.name(), "gamma"),
        _ => panic!("commit should return the selected item"),
    }
    assert_eq!(store.len(), 1);
    assert_eq!(store.get_count("gamma"), 1);
    assert_eq!(store.serialize(), "1 gamma\n");
}

#[test]
fn column_count_never_exceeds_needed_pages() {
    let store = FrecencyStore::new();
    let s = Session::new(catalog(&["a", "b", "c"]), &store, false, false, true, false, 2, 5);
    assert_eq!(s.columns(), 2);
    let t = Session::new(catalog(&[]), &store, false, false, true, false, 2, 5);
    assert_eq!(t.columns(), 1);
    let u = Session::new(
        catalog(&["a", "b", "c", "d", "e", "f", "g", "h", "i", "j", "k", "l"]),
        &store,
        false,
        false,
        true,
        false,
        2,
        3,
    );
    assert_eq!(u.columns(), 3);
}

#[test]
fn arrows_move_inside_the_page() {
    let mut store = FrecencyStore::new();
    let mut s = Session::new(
        catalog(&["a", "b", "c", "d"]),
        &store,
        false,
        false,
        true,
        false,
        2,
        2,
    );
    // Cells are column-major: cell 0 "a", cell 1 "b" below it, cell 2 "c".
    assert_eq!(selected_name(&s), Some("a".to_string()));
    s.step(Event::ArrowDown, &mut store);
    assert_eq!(s.cursor_index(), 1);
    assert_eq!(selected_name(&s), Some("b".to_string()));
    s.step(Event::ArrowDown, &mut store);
    assert_eq!(s.cursor_index(), 1);
    s.step(Event::ArrowRight, &mut store);
    assert_eq!(s.cursor_index(), 3);
    assert_eq!(selected_name(&s), Some("d".to_string()));
    s.step(Event::ArrowUp, &mut store);
    assert_eq!(s.cursor_index(), 2);
    s.step(Event::ArrowLeft, &mut store);
    assert_eq!(s.cursor_index(), 0);
    s.step(Event::ArrowUp, &mut store);
    assert_eq!(s.cursor_index(), 0);
    s.step(Event::ArrowLeft, &mut store);
    assert_eq!(s.cursor_index(), 0);
}

#[test]
fn scrolling_pages_through_the_filtered_view() {
    let mut store = FrecencyStore::new();
    let mut s = Session::new(
        catalog(&["a", "b", "c", "d", "e", "f", "g", "h", "i", "j"]),
        &store,
        false,
        false,
        true,
        false,
        2,
        2,
    );
    assert_eq!(s.filtered_count(), 10);
    s.step(Event::ScrollUp, &mut store);
    assert_eq!(s.scroll_page(), 0);
    s.step(Event::ScrollDown, &mut store);
    assert_eq!(s.scroll_page(), 1);
    s.step(Event::ScrollDown, &mut store);
    assert_eq!(s.scroll_page(), 2);
    // Page 2 shows only "i" and "j": scrolling further must keep an item
    // on the page, so the cursor is clamped and the page stays.
    s.step(Event::ScrollDown, &mut store);
    assert_eq!(s.scroll_page(), 2);
    s.step(Event::ScrollUp, &mut store);
    assert_eq!(s.scroll_page(), 1);
    assert_eq!(selected_name(&s), Some("e".to_string()));
}

#[test]
fn cursor_stays_in_bounds_under_event_storm() {
    let mut store = FrecencyStore::new();
    let mut s = Session::new(
        catalog(&["a", "b", "c", "d", "e", "f", "g"]),
        &store,
        false,
        false,
        true,
        false,
        3,
        2,
    );
    let events = [
        Event::ArrowDown,
        Event::ArrowDown,
        Event::ArrowDown,
        Event::ArrowRight,
        Event::ScrollDown,
        Event::ArrowDown,
        Event::ArrowUp,
        Event::ArrowUp,
        Event::ArrowUp,
        Event::ArrowUp,
        Event::ScrollDown,
        Event::ArrowRight,
        Event::ArrowLeft,
        Event::ArrowLeft,
        Event::ScrollUp,
        Event::ArrowDown,
    ];
    for ev in events {
        s.step(ev, &mut store);
        let area = s.rows() * s.columns();
        assert!(s.cursor_index() < area);
        let absolute = s.cursor_index() + s.scroll_page() * area;
        assert!(absolute < s.filtered_count());
    }
}

#[test]
fn arrows_do_nothing_while_input_has_focus() {
    let mut store = FrecencyStore::new();
    let mut s = Session::new(catalog(&["a", "b", "c"]), &store, false, false, true, false, 3, 1);
    s.step(Event::ToggleFocus, &mut store);
    s.step(Event::ArrowDown, &mut store);
    assert_eq!(s.cursor_index(), 0);
    s.step(Event::ToggleFocus, &mut store);
    s.step(Event::ArrowDown, &mut store);
    assert_eq!(s.cursor_index(), 1);
}

#[test]
fn pattern_mode_matches_case_insensitively_anywhere() {
    let mut store = FrecencyStore::new();
    let mut s = Session::new(
        catalog(&["Firefox", "fireplace", "waterfall"]),
        &store,
        false,
        false,
        false,
        false,
        3,
        1,
    );
    s.step(Event::TextChanged("FIRE".to_string()), &mut store);
    assert_eq!(s.filtered_count(), 2);
    s.step(Event::TextChanged("fall".to_string()), &mut store);
    assert_eq!(s.filtered_count(), 1);
    assert_eq!(selected_name(&s), Some("waterfall".to_string()));
}

#[test]
fn malformed_pattern_falls_back_to_everything() {
    let mut store = FrecencyStore::new();
    let mut s = Session::new(
        catalog(&["alpha", "beta"]),
        &store,
        false,
        false,
        false,
        false,
        2,
        1,
    );
    s.step(Event::TextChanged("(".to_string()), &mut store);
    assert_eq!(s.filtered_count(), 2);
}

#[test]
fn literal_mode_is_prefix_and_case_sensitive() {
    let mut store = FrecencyStore::new();
    let mut s = Session::new(
        catalog(&["Firefox", "fireplace", "waterfire"]),
        &store,
        false,
        false,
        true,
        false,
        3,
        1,
    );
    s.step(Event::TextChanged("fire".to_string()), &mut store);
    assert_eq!(s.filtered_count(), 1);
    assert_eq!(selected_name(&s), Some("fireplace".to_string()));
}

#[test]
fn custom_input_commits_free_text_without_caching() {
    let mut store = FrecencyStore::new();
    let mut s = Session::new(catalog(&[]), &store, true, true, true, false, 2, 2);
    s.step(Event::TextChanged("hello world".to_string()), &mut store);
    match s.step(Event::Commit, &mut store) {
        StepResult::Done(Some(Item::FreeText { name })) => assert_eq!(name, "hello world"),
        _ => panic!("commit should synthesize the typed text"),
    }
    assert_eq!(store.len(), 0);
}

#[test]
fn commit_with_nothing_selected_and_no_custom_returns_none() {
    let mut store = FrecencyStore::new();
    let mut s = Session::new(catalog(&["alpha"]), &store, false, false, true, false, 2, 2);
    s.step(Event::TextChanged("zzz".to_string()), &mut store);
    match s.step(Event::Commit, &mut store) {
        StepResult::Done(None) => {},
        _ => panic!("nothing was selected"),
    }
}

#[test]
fn cancel_ends_with_no_selection() {
    let mut store = FrecencyStore::new();
    let mut s = Session::new(catalog(&["alpha"]), &store, false, false, true, false, 2, 2);
    match s.step(Event::Cancel, &mut store) {
        StepResult::Done(None) => {},
        _ => panic!("cancel carries no selection"),
    }
}

#[test]
fn delete_removes_record_and_reranks() {
    let mut store = FrecencyStore::parse("5 gamma\n1 alpha\n");
    let mut s = Session::new(
        catalog(&["alpha", "beta", "gamma"]),
        &store,
        true,
        false,
        true,
        false,
        3,
        1,
    );
    assert_eq!(selected_name(&s), Some("gamma".to_string()));
    let r = s.step(Event::Delete, &mut store);
    assert!(matches!(r, StepResult::Continue));
    assert_eq!(store.get_count("gamma"), 0);
    assert_eq!(store.len(), 1);
    // With gamma's record gone, alpha (count 1) leads and the rest follow
    // in natural order.
    assert_eq!(s.item_at(0).unwrap().name(), "alpha");
    assert_eq!(s.item_at(1).unwrap().name(), "beta");
    assert_eq!(s.item_at(2).unwrap().name(), "gamma");
}

#[test]
fn delete_without_cache_is_a_no_op() {
    let mut store = FrecencyStore::parse("5 gamma\n");
    let mut s = Session::new(catalog(&["gamma"]), &store, false, false, true, false, 1, 1);
    s.step(Event::Delete, &mut store);
    assert_eq!(store.get_count("gamma"), 5);
}

#[test]
fn losing_focus_ends_session_when_configured() {
    let mut store = FrecencyStore::new();
    let mut s = Session::new(catalog(&["a"]), &store, false, false, true, true, 1, 1);
    let r = s.step(Event::FocusLost, &mut store);
    assert!(matches!(r, StepResult::Continue));
    s.step(Event::FocusGained, &mut store);
    match s.step(Event::FocusLost, &mut store) {
        StepResult::Done(None) => {},
        _ => panic!("unfocus should end the session with nothing"),
    }
}

#[test]
fn text_change_resets_cursor_and_scroll() {
    let mut store = FrecencyStore::new();
    let mut s = Session::new(
        catalog(&["a", "b", "c", "d", "e", "f"]),
        &store,
        false,
        false,
        true,
        false,
        1,
        2,
    );
    s.step(Event::ScrollDown, &mut store);
    s.step(Event::ArrowRight, &mut store);
    assert!(s.scroll_page() > 0 || s.cursor_index() > 0);
    s.step(Event::TextChanged("a".to_string()), &mut store);
    assert_eq!(s.scroll_page(), 0);
    assert_eq!(s.cursor_index(), 0);
}
