use linch_core::item::Item;
use linch_core::store::FrecencyStore;

fn catalog(names: &[&str]) -> Vec<Item> {
    names
        .iter()
        .map(|n| Item::PathEntry { name: n.to_string(), file: format!("/bin/{}", n) })
        .collect()
}

fn names_of(items: &Vec<Item>) -> Vec<String> {
    items.iter().map(|i| i.name().to_string()).collect()
}

#[test]
fn natural_tie_break_orders_numbers_by_value() {
    let store = FrecencyStore::new();
    let ranked = store.rank(&catalog(&["file10", "file2"]));
    assert_eq!(names_of(&ranked), vec!["file2".to_string(), "file10".to_string()]);
}

#[test]
fn natural_order_without_cache() {
    let store = FrecencyStore::new();
    let ranked = store.rank(&catalog(&["b", "item10", "a", "item2", "item1"]));
    assert_eq!(
        names_of(&ranked),
        vec![
            "a".to_string(),
            "b".to_string(),
            "item1".to_string(),
            "item2".to_string(),
            "item10".to_string(),
        ]
    );
}

#[test]
fn counts_rank_before_natural_order() {
    let store = FrecencyStore::parse("5 beta\n5 alpha\n1 gamma\n");
    let ranked = store.rank(&catalog(&["gamma", "beta", "alpha"]));
    assert_eq!(
        names_of(&ranked),
        vec!["alpha".to_string(), "beta".to_string(), "gamma".to_string()]
    );
}

#[test]
fn higher_count_wins_over_name() {
    let store = FrecencyStore::parse("9 zeta\n2 alpha\n");
    let ranked = store.rank(&catalog(&["alpha", "beta", "zeta"]));
    assert_eq!(
        names_of(&ranked),
        vec!["zeta".to_string(), "alpha".to_string(), "beta".to_string()]
    );
}

#[test]
fn ranking_twice_gives_identical_order() {
    let store = FrecencyStore::parse("3 q\n3 p\n1 z\n");
    let items = catalog(&["z", "q", "x", "p", "a10", "a2"]);
    let once = store.rank(&items);
    let twice = store.rank(&items);
    assert_eq!(names_of(&once), names_of(&twice));
    let again = store.rank(&once);
    assert_eq!(names_of(&again), names_of(&once));
}

#[test]
fn nineteen_digit_runs_compare_numerically() {
    let store = FrecencyStore::new();
    let ranked = store.rank(&catalog(&[
        "file9999999999999999999",
        "file9999999999999999998",
    ]));
    assert_eq!(
        names_of(&ranked),
        vec![
            "file9999999999999999998".to_string(),
            "file9999999999999999999".to_string(),
        ]
    );
}

#[test]
fn overflowing_digit_runs_still_rank() {
    // Two names whose digit runs would overflow the outside comparison's
    // accumulators tie-break by plain character codes instead.
    let store = FrecencyStore::new();
    let long_low = "a99999999999999999999999990";
    let long_high = "a99999999999999999999999991";
    let ranked = store.rank(&catalog(&[long_high, long_low]));
    assert_eq!(
        names_of(&ranked),
        vec![long_low.to_string(), long_high.to_string()]
    );
    // Beside a name without such a run, the natural order still decides.
    let ranked2 = store.rank(&catalog(&["b", long_low]));
    assert_eq!(
        names_of(&ranked2),
        vec![long_low.to_string(), "b".to_string()]
    );
}
