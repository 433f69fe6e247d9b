use linch_core::store::FrecencyStore;

#[test]
fn empty_text_is_empty_store() {
    let s = FrecencyStore::parse("");
    assert_eq!(s.len(), 0);
    assert_eq!(s.serialize(), "");
}

#[test]
fn increment_creates_then_bumps() {
    let mut s = FrecencyStore::new();
    assert_eq!(s.get_count("foo"), 0);
    s.increment("foo");
    assert_eq!(s.get_count("foo"), 1);
    s.increment("foo");
    assert_eq!(s.get_count("foo"), 2);
    assert_eq!(s.len(), 1);
    s.increment("bar");
    assert_eq!(s.get_count("bar"), 1);
    assert_eq!(s.len(), 2);
}

#[test]
fn increment_saturates_at_max() {
    let text = format!("{} top\n", usize::MAX);
    let mut s = FrecencyStore::parse(&text);
    assert_eq!(s.get_count("top"), usize::MAX);
    s.increment("top");
    assert_eq!(s.get_count("top"), usize::MAX);
    s.increment("top");
    assert_eq!(s.get_count("top"), usize::MAX);
    assert_eq!(s.serialize(), text);
}

#[test]
fn parse_saturates_oversized_count() {
    let s = FrecencyStore::parse("99999999999999999999999999999 big\n");
    assert_eq!(s.get_count("big"), usize::MAX);
}

#[test]
fn delete_absent_leaves_store_unchanged() {
    let mut s = FrecencyStore::parse("5 alpha\n3 beta\n");
    s.delete("gamma");
    assert_eq!(s.len(), 2);
    assert_eq!(s.serialize(), "5 alpha\n3 beta\n");
}

#[test]
fn delete_twice_equals_delete_once() {
    let mut once = FrecencyStore::parse("5 alpha\n3 beta\n1 gamma\n");
    once.delete("beta");
    let after_once = once.serialize();
    once.delete("beta");
    assert_eq!(once.serialize(), after_once);
    assert_eq!(after_once, "5 alpha\n1 gamma\n");
}

#[test]
fn save_then_load_reproduces_records() {
    let mut s = FrecencyStore::new();
    s.increment("beta");
    s.increment("beta");
    s.increment("alpha");
    s.increment("gamma");
    s.increment("beta");
    let text = s.serialize();
    let re = FrecencyStore::parse(&text);
    assert_eq!(re.len(), s.len());
    assert_eq!(re.get_count("alpha"), 1);
    assert_eq!(re.get_count("beta"), 3);
    assert_eq!(re.get_count("gamma"), 1);
    assert_eq!(re.serialize(), text);
}

#[test]
fn round_trip_keeps_names_with_spaces() {
    let mut s = FrecencyStore::new();
    s.increment("two words");
    s.increment("12monkeys");
    let text = s.serialize();
    let re = FrecencyStore::parse(&text);
    assert_eq!(re.get_count("two words"), 1);
    assert_eq!(re.get_count("12monkeys"), 1);
    assert_eq!(re.len(), 2);
}

#[test]
fn malformed_lines_are_skipped() {
    let s = FrecencyStore::parse("5 alpha\nnot a record\n7\n  \nx 3\n2 beta\n");
    assert_eq!(s.len(), 2);
    assert_eq!(s.get_count("alpha"), 5);
    assert_eq!(s.get_count("beta"), 2);
}

#[test]
fn lines_are_trimmed_before_reading() {
    let s = FrecencyStore::parse("  5   spaced name  \r\n\t3 tabbed\n");
    assert_eq!(s.get_count("spaced name"), 5);
    assert_eq!(s.get_count("tabbed"), 3);
}

#[test]
fn duplicate_names_keep_first_record() {
    let s = FrecencyStore::parse("3 a\n7 a\n");
    assert_eq!(s.len(), 1);
    assert_eq!(s.get_count("a"), 3);
}

#[test]
fn serialize_writes_exact_lines() {
    let mut s = FrecencyStore::new();
    s.increment("alpha");
    s.increment("alpha");
    s.increment("beta");
    assert_eq!(s.serialize(), "2 alpha\n1 beta\n");
    let big = FrecencyStore::parse("1234567890 x\n");
    assert_eq!(big.serialize(), "1234567890 x\n");
}

#[test]
fn missing_trailing_newline_still_reads() {
    let s = FrecencyStore::parse("4 alpha");
    assert_eq!(s.get_count("alpha"), 4);
    assert_eq!(s.len(), 1);
}
