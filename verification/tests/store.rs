use tabsbot::tabs::{RoomTabContent, SearchError, TabStore};

const EMPTY: &str = "The tab of this room is currently empty.";

fn balances(store: &TabStore, room: &str) -> Option<Vec<(String, i32)>> {
    store.get(room).map(|tab| tab.entries())
}

fn pairs(entries: &[(&str, i32)]) -> Option<Vec<(String, i32)>> {
    Some(entries.iter().map(|(user, balance)| (user.to_string(), *balance)).collect())
}

#[test]
fn new_store_has_no_rooms() {
    let store = TabStore::new();
    assert!(store.get("!room:example.org").is_none());
    assert!(store.get("").is_none());
}

#[test]
fn balance_of_an_unknown_room_is_the_fixed_sentence() {
    let store = TabStore::new();
    assert_eq!(store.balance("!room:example.org"), EMPTY);
    let mut other = TabStore::new();
    other.pay(100, "!a:example.org", "alice");
    assert_eq!(other.balance("!b:example.org"), EMPTY);
    assert_eq!(other.balance("!a:example.or"), EMPTY);
}

#[test]
fn balance_of_a_room_with_an_empty_tab_is_the_heading() {
    let mut store = TabStore::new();
    store.restore("!room:example.org", RoomTabContent::new());
    assert_eq!(store.balance("!room:example.org"), "Current room balance:");
}

#[test]
fn pay_creates_room_and_user() {
    let mut store = TabStore::new();
    store.pay(1250, "!room:example.org", "@alice:example.org");
    assert_eq!(balances(&store, "!room:example.org"), pairs(&[("@alice:example.org", 1250)]));
    assert_eq!(
        store.balance("!room:example.org"),
        "Current room balance:\n - @alice:example.org: 12.50"
    );
}

#[test]
fn pay_twice_adds_both_amounts() {
    let mut store = TabStore::new();
    store.pay(1250, "room", "alice");
    store.pay(375, "room", "alice");
    assert_eq!(balances(&store, "room"), pairs(&[("alice", 1625)]));
}

#[test]
fn pay_twice_adds_both_amounts_to_what_was_there() {
    let mut store = TabStore::new();
    store.pay(-40, "room", "alice");
    store.pay(7, "room", "bob");
    store.pay(1250, "room", "alice");
    store.pay(375, "room", "alice");
    assert_eq!(balances(&store, "room"), pairs(&[("alice", 1585), ("bob", 7)]));
}

#[test]
fn pay_takes_zero_and_negative_amounts() {
    let mut store = TabStore::new();
    store.pay(0, "room", "alice");
    assert_eq!(balances(&store, "room"), pairs(&[("alice", 0)]));
    store.pay(-500, "room", "alice");
    assert_eq!(balances(&store, "room"), pairs(&[("alice", -500)]));
}

#[test]
fn pay_keeps_rooms_apart() {
    let mut store = TabStore::new();
    store.pay(100, "one", "alice");
    store.pay(200, "two", "alice");
    store.pay(1, "one", "bob");
    assert_eq!(balances(&store, "one"), pairs(&[("alice", 100), ("bob", 1)]));
    assert_eq!(balances(&store, "two"), pairs(&[("alice", 200)]));
    assert_eq!(balances(&store, "three"), None);
}

#[test]
fn can_pay_tells_when_the_balance_would_not_fit() {
    let mut store = TabStore::new();
    assert!(store.can_pay(i32::MAX, "room", "alice"));
    assert!(store.can_pay(i32::MIN, "room", "alice"));
    store.pay(i32::MAX, "room", "alice");
    assert!(!store.can_pay(1, "room", "alice"));
    assert!(store.can_pay(0, "room", "alice"));
    assert!(store.can_pay(-1, "room", "alice"));
    assert!(store.can_pay(1, "room", "bob"));
    assert!(store.can_pay(1, "other", "alice"));
    store.pay(i32::MIN, "room", "alice");
    store.pay(i32::MIN + 1, "room", "alice");
    assert!(!store.can_pay(-1, "room", "alice"));
}

#[test]
fn payto_moves_the_amount() {
    let mut store = TabStore::new();
    store.pay(1000, "room", "@alice:example.org");
    store.pay(200, "room", "@bob:example.org");
    let other = store.payto(300, "room", "@alice:example.org", "bob");
    assert_eq!(other, Ok("@bob:example.org".to_string()));
    assert_eq!(
        balances(&store, "room"),
        pairs(&[("@alice:example.org", 1300), ("@bob:example.org", -100)])
    );
}

#[test]
fn payto_keeps_the_total_of_the_room() {
    let mut store = TabStore::new();
    store.pay(1000, "room", "alice");
    store.pay(200, "room", "bob");
    store.pay(-77, "room", "carol");
    let total = |store: &TabStore| -> i64 {
        store.get("room").unwrap().entries().iter().map(|(_, balance)| *balance as i64).sum()
    };
    let before: i64 = total(&store);
    assert_eq!(store.payto(12345, "room", "carol", "ali"), Ok("alice".to_string()));
    assert_eq!(total(&store), before);
    assert_eq!(store.payto(-5, "room", "bob", "car"), Ok("carol".to_string()));
    assert_eq!(total(&store), before);
    assert_eq!(balances(&store, "room"), pairs(&[("alice", -11345), ("bob", 195), ("carol", 12273)]));
}

#[test]
fn payto_lets_a_new_user_pay() {
    let mut store = TabStore::new();
    store.pay(0, "room", "bob");
    assert_eq!(store.payto(500, "room", "alice", "bob"), Ok("bob".to_string()));
    assert_eq!(balances(&store, "room"), pairs(&[("bob", -500), ("alice", 500)]));
}

#[test]
fn payto_oneself_changes_nothing() {
    let mut store = TabStore::new();
    store.pay(i32::MAX, "room", "alice");
    assert!(store.can_payto(i32::MAX, "room", "alice", "ali"));
    assert_eq!(store.payto(i32::MAX, "room", "alice", "ali"), Ok("alice".to_string()));
    assert_eq!(balances(&store, "room"), pairs(&[("alice", i32::MAX)]));
}

#[test]
fn payto_fails_where_two_users_fit() {
    let mut store = TabStore::new();
    store.pay(1000, "room", "@alice:example.org");
    store.pay(200, "room", "@alan:example.org");
    store.pay(5, "room", "@bob:example.org");
    let report = store.balance("room");
    assert!(store.can_payto(300, "room", "@bob:example.org", "al"));
    let other = store.payto(300, "room", "@bob:example.org", "al");
    assert_eq!(other, Err(SearchError::Ambiguous));
    assert_eq!(store.balance("room"), report);
    assert_eq!(
        balances(&store, "room"),
        pairs(&[("@alice:example.org", 1000), ("@alan:example.org", 200), ("@bob:example.org", 5)])
    );
}

#[test]
fn payto_fails_where_no_user_fits() {
    let mut store = TabStore::new();
    store.pay(1000, "room", "alice");
    let report = store.balance("room");
    assert!(store.can_payto(300, "room", "alice", "bob"));
    assert_eq!(store.payto(300, "room", "alice", "bob"), Err(SearchError::NotFound));
    assert_eq!(store.balance("room"), report);
    assert_eq!(balances(&store, "room"), pairs(&[("alice", 1000)]));
    assert_eq!(store.payto(300, "room", "carol", "bob"), Err(SearchError::NotFound));
    assert_eq!(balances(&store, "room"), pairs(&[("alice", 1000)]));
}

#[test]
fn payto_in_an_unknown_room_fails_and_creates_no_tab() {
    let mut store = TabStore::new();
    assert!(store.can_payto(300, "room", "alice", "bob"));
    assert_eq!(store.payto(300, "room", "alice", "bob"), Err(SearchError::NotFound));
    assert!(store.get("room").is_none());
    assert_eq!(store.balance("room"), EMPTY);
    assert_eq!(store.payto(300, "room", "alice", ""), Err(SearchError::NotFound));
    assert!(store.get("room").is_none());
}

#[test]
fn payto_does_not_look_into_other_rooms() {
    let mut store = TabStore::new();
    store.pay(0, "one", "bob");
    store.pay(0, "two", "alice");
    assert_eq!(store.payto(300, "two", "alice", "bob"), Err(SearchError::NotFound));
    assert_eq!(balances(&store, "one"), pairs(&[("bob", 0)]));
    assert_eq!(balances(&store, "two"), pairs(&[("alice", 0)]));
}

#[test]
fn can_payto_tells_when_a_balance_would_not_fit() {
    let mut store = TabStore::new();
    store.pay(i32::MAX, "room", "alice");
    store.pay(i32::MIN, "room", "bob");
    assert!(!store.can_payto(1, "room", "alice", "bob"));
    assert!(!store.can_payto(1, "room", "carol", "bob"));
    assert!(!store.can_payto(-1, "room", "carol", "alice"));
    assert!(store.can_payto(1, "room", "bob", "alice"));
    assert!(store.can_payto(0, "room", "alice", "bob"));
    assert!(store.can_payto(1, "room", "alice", "nobody"));
    assert!(store.can_payto(1, "room", "alice", ""));
}

#[test]
fn payto_takes_the_smallest_amount() {
    let mut store = TabStore::new();
    store.pay(i32::MAX, "room", "alice");
    store.pay(-1, "room", "bob");
    assert!(store.can_payto(i32::MIN, "room", "alice", "bob"));
    assert_eq!(store.payto(i32::MIN, "room", "alice", "bob"), Ok("bob".to_string()));
    assert_eq!(balances(&store, "room"), pairs(&[("alice", -1), ("bob", i32::MAX)]));
}

#[test]
fn rebalance_shifts_the_tab_of_the_room() {
    let mut store = TabStore::new();
    store.pay(900, "room", "alice");
    store.pay(0, "room", "bob");
    store.pay(0, "room", "carol");
    store.pay(50, "other", "dave");
    assert!(store.can_rebalance("room"));
    store.rebalance("room");
    assert_eq!(balances(&store, "room"), pairs(&[("alice", 600), ("bob", -300), ("carol", -300)]));
    assert_eq!(balances(&store, "other"), pairs(&[("dave", 50)]));
}

#[test]
fn store_rebalance_leaves_a_balanced_room_as_it_is() {
    let mut store = TabStore::new();
    store.pay(0, "room", "bob");
    assert_eq!(store.payto(500, "room", "alice", "bob"), Ok("bob".to_string()));
    let report = store.balance("room");
    store.rebalance("room");
    assert_eq!(store.balance("room"), report);
    assert_eq!(balances(&store, "room"), pairs(&[("bob", -500), ("alice", 500)]));
}

#[test]
fn rebalance_of_an_unknown_room_creates_no_tab() {
    let mut store = TabStore::new();
    assert!(store.can_rebalance("room"));
    store.rebalance("room");
    assert!(store.get("room").is_none());
    assert_eq!(store.balance("room"), EMPTY);
}

#[test]
fn rebalance_of_a_room_with_an_empty_tab_does_nothing() {
    let mut store = TabStore::new();
    store.restore("room", RoomTabContent::new());
    store.rebalance("room");
    assert_eq!(balances(&store, "room"), pairs(&[]));
}

#[test]
fn store_can_rebalance_tells_when_a_balance_would_not_fit() {
    let mut store = TabStore::new();
    store.pay(i32::MAX, "room", "alice");
    store.pay(i32::MIN, "room", "bob");
    store.pay(i32::MIN, "room", "carol");
    assert!(!store.can_rebalance("room"));
    assert!(store.can_rebalance("other"));
}

#[test]
fn restore_gives_a_room_its_tab() {
    let mut tab = RoomTabContent::new();
    tab.set_balance("alice", 5);
    tab.set_balance("bob", -5);
    let mut store = TabStore::new();
    store.restore("room", tab);
    assert_eq!(balances(&store, "room"), pairs(&[("alice", 5), ("bob", -5)]));
    store.pay(10, "room", "bob");
    assert_eq!(balances(&store, "room"), pairs(&[("alice", 5), ("bob", 5)]));
}

#[test]
fn restore_replaces_the_tab_of_a_room() {
    let mut store = TabStore::new();
    store.pay(100, "room", "alice");
    store.pay(100, "other", "alice");
    let mut tab = RoomTabContent::new();
    tab.set_balance("carol", 42);
    store.restore("room", tab);
    assert_eq!(balances(&store, "room"), pairs(&[("carol", 42)]));
    assert_eq!(balances(&store, "other"), pairs(&[("alice", 100)]));
}

#[test]
fn restored_balances_come_back_as_they_were() {
    let mut store = TabStore::new();
    store.pay(1250, "room", "alice");
    store.pay(-3, "room", "bob");
    let saved: Vec<(String, i32)> = store.get("room").unwrap().entries();
    let mut loaded = TabStore::new();
    loaded.restore("room", RoomTabContent::from_entries(&saved));
    assert_eq!(loaded.get("room").unwrap().entries(), saved);
    assert_eq!(loaded.balance("room"), store.balance("room"));
}

#[test]
fn get_gives_the_tab_of_the_room() {
    let mut store = TabStore::new();
    store.pay(100, "one", "alice");
    store.pay(200, "two", "bob");
    assert_eq!(store.get("one").unwrap().balance_of("alice"), 100);
    assert_eq!(store.get("two").unwrap().balance_of("bob"), 200);
    assert_eq!(store.get("two").unwrap().balance_of("alice"), 0);
}

#[test]
fn rooms_lists_each_room_once() {
    let mut store = TabStore::new();
    assert_eq!(store.rooms(), Vec::<String>::new());
    store.pay(100, "one", "alice");
    store.pay(200, "two", "bob");
    store.pay(300, "one", "carol");
    store.restore("three", RoomTabContent::new());
    store.rebalance("four");
    assert_eq!(store.payto(1, "five", "alice", "bob"), Err(SearchError::NotFound));
    let mut rooms: Vec<String> = store.rooms();
    rooms.sort();
    assert_eq!(rooms, vec!["one".to_string(), "three".to_string(), "two".to_string()]);
}

#[test]
fn a_saved_ledger_comes_back_as_it_was() {
    let mut store = TabStore::new();
    store.pay(1250, "one", "alice");
    store.pay(-3, "one", "bob");
    store.pay(7, "two", "carol");
    store.restore("three", RoomTabContent::new());
    let saved: Vec<(String, Vec<(String, i32)>)> = store
        .rooms()
        .into_iter()
        .map(|room| {
            let entries = store.get(&room).unwrap().entries();
            (room, entries)
        })
        .collect();
    let mut loaded = TabStore::new();
    for (room, entries) in &saved {
        loaded.restore(room, RoomTabContent::from_entries(entries));
    }
    for room in ["one", "two", "three", "four"] {
        assert_eq!(balances(&loaded, room), balances(&store, room));
        assert_eq!(loaded.balance(room), store.balance(room));
    }
}
