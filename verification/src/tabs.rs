//! Tabs: the running balances of the users of a chat room, and the store that
//! keeps one tab for each room.

use vstd::arithmetic::div_mod::{
    lemma_basic_div, lemma_div_nonincreasing, lemma_div_pos_is_pos, lemma_fundamental_div_mod,
    lemma_mod_bound,
};
use vstd::prelude::*;
use vstd::string::StringExecFns;
use crate::assoc::{
    as_map, find_key, has_key, key_at, keys_distinct, lemma_as_map_lookup, lemma_as_map_remove,
    lemma_as_map_with_entry, lemma_no_place_no_key, lemma_place_of_unique, lemma_with_entry,
    place_of, value_or, with_entry,
};
use crate::text::{chars_of, contains_chars, is_substring, occurs_at, same_text, strings_view};
use crate::utils::{format_amount, formatted_amount};

verus! {

/// The first line of every balance report.
pub const REPORT_HEADING: &'static str = "Current room balance:";

/// What is reported of a room that has no tab.
pub const EMPTY_TAB_NOTICE: &'static str = "The tab of this room is currently empty.";

/// Why a search for a user by a fragment of their identifier failed.
#[derive(Debug, Clone, Copy, PartialEq, Eq, Structural)]
pub enum SearchError {
    /// Two or more known identifiers contain the fragment.
    Ambiguous,
    /// No known identifier contains the fragment.
    NotFound,
}

/// A tab as contracts speak of it: each user with their balance, in the order
/// in which the users joined the tab. The tab of a room lists no user twice
/// (`keys_distinct`).
pub type Tab = Seq<(Seq<char>, int)>;

/// A ledger as contracts speak of it: the tab of each room that has one.
pub type Ledger = Map<Seq<char>, Tab>;

/// The balance of `user` in the tab `t`: zero for a user that the tab does not
/// know.
pub open spec fn balance_in(t: Tab, user: Seq<char>) -> int {
    value_or(t, user, 0int)
}

/// The tab `t` after `amount` was added to the balance of `user`, who joins
/// the tab as its last user if the tab did not know them.
pub open spec fn credited(t: Tab, user: Seq<char>, amount: int) -> Tab {
    with_entry(t, user, balance_in(t, user) + amount)
}

/// The tab `t` after `user` paid `amount` to `other`: `user` is credited with
/// it and `other` debited.
pub open spec fn transferred(t: Tab, user: Seq<char>, other: Seq<char>, amount: int) -> Tab {
    credited(credited(t, user, amount), other, -amount)
}

/// The sum of all balances of the tab `t`.
pub open spec fn total(t: Tab) -> int
    decreases t.len(),
{
    if t.len() == 0 {
        0
    } else {
        total(t.drop_last()) + t.last().1
    }
}

/// The quotient of `a` by `n`, rounded towards zero, for `n > 0`.
pub open spec fn quotient_towards_zero(a: int, n: int) -> int {
    if a >= 0 {
        a / n
    } else {
        -((-a) / n)
    }
}

/// The mean balance of the tab `t`, rounded towards zero; zero for a tab
/// without users.
pub open spec fn mean(t: Tab) -> int {
    if t.len() == 0 {
        0
    } else {
        quotient_towards_zero(total(t), t.len() as int)
    }
}

/// The tab `t` with every balance lowered by `by`.
pub open spec fn lowered(t: Tab, by: int) -> Tab {
    t.map_values(|e: (Seq<char>, int)| (e.0, e.1 - by))
}

/// The tab `t` after its mean balance was taken from every balance.
pub open spec fn rebalanced(t: Tab) -> Tab {
    lowered(t, mean(t))
}

/// Whether `amount` can be stored as a balance.
pub open spec fn is_balance(amount: int) -> bool {
    i32::MIN <= amount <= i32::MAX
}

/// Whether every balance of the tab `t` can still be stored once the mean is
/// taken from it.
pub open spec fn rebalance_fits(t: Tab) -> bool {
    forall|i: int| 0 <= i < t.len() ==> is_balance((#[trigger] t[i]).1 - mean(t))
}

/// The user at place `i` of the tab `t` has `txt` somewhere in their
/// identifier.
pub open spec fn is_hit(t: Tab, txt: Seq<char>, i: int) -> bool {
    0 <= i < t.len() && is_substring(txt, t[i].0)
}

/// The one user of the tab `t` whose identifier contains `txt`; the search
/// fails where no identifier contains it, and where two or more do.
pub open spec fn search(t: Tab, txt: Seq<char>) -> Result<Seq<char>, SearchError> {
    if forall|i: int| !is_hit(t, txt, i) {
        Err(SearchError::NotFound)
    } else if exists|i: int, j: int| i != j && is_hit(t, txt, i) && is_hit(t, txt, j) {
        Err(SearchError::Ambiguous)
    } else {
        Ok(t[choose|i: int| is_hit(t, txt, i)].0)
    }
}

/// One line of a balance report: the user and their balance.
pub open spec fn balance_line(entry: (Seq<char>, int)) -> Seq<char> {
    "\n - "@ + entry.0 + ": "@ + formatted_amount(entry.1)
}

/// The balance report of the tab `t`: a heading, then one line for each user
/// in the order of the tab.
pub open spec fn balance_report(t: Tab) -> Seq<char>
    decreases t.len(),
{
    if t.len() == 0 {
        REPORT_HEADING@
    } else {
        balance_report(t.drop_last()) + balance_line(t.last())
    }
}

/// The tab that a list of users and balances gives, read in order: each user
/// joins the tab at its first place in the list, and has the balance of its
/// last.
pub open spec fn tab_of_entries(entries: Tab) -> Tab
    decreases entries.len(),
{
    if entries.len() == 0 {
        Tab::empty()
    } else {
        with_entry(tab_of_entries(entries.drop_last()), entries.last().0, entries.last().1)
    }
}

/// What a list of stored entries says of the tab: each user with their
/// balance.
pub open spec fn entries_view(entries: Seq<(String, i32)>) -> Tab {
    entries.map_values(|e: (String, i32)| (e.0@, e.1 as int))
}

/// The balances of the users of one room, in minor currency units.
///
/// A tab lists each of its users once, in the order in which they joined it. A
/// user that the tab does not know has the balance zero.
#[derive(Debug)]
pub struct RoomTabContent {
    users: Vec<(String, i32)>,
}

impl View for RoomTabContent {
    type V = Tab;

    closed spec fn view(&self) -> Tab {
        entries_view(self.users@)
    }
}

impl Clone for RoomTabContent {
    /// A tab with the same users and balances.
    fn clone(&self) -> (tab: RoomTabContent)
        ensures
            tab@ == self@,
    {
        RoomTabContent { users: self.entries() }
    }
}

impl RoomTabContent {
    /// What holds of every tab: no user is listed twice.
    #[verifier::type_invariant]
    pub closed spec fn lists_each_user_once(&self) -> bool {
        keys_distinct(self@)
    }

    /// A tab lists no user twice.
    pub proof fn lemma_users_distinct(&self)
        requires
            self.lists_each_user_once(),
        ensures
            keys_distinct(self@),
    {
    }

    /// A tab without users.
    pub fn new() -> (tab: RoomTabContent)
        ensures
            tab@ == Tab::empty(),
    {
        RoomTabContent { users: Vec::new() }
    }

    /// The tab that a list of users and balances gives, read in order: a user
    /// that the list names twice has the balance that it gives last. A list
    /// taken from a tab gives the tab back.
    pub fn from_entries(entries: &Vec<(String, i32)>) -> (tab: RoomTabContent)
        ensures
            tab@ == tab_of_entries(entries_view(entries@)),
            keys_distinct(tab@),
    {
        let mut tab = RoomTabContent::new();
        let ghost all = entries_view(entries@);
        let mut i: usize = 0;
        while i < entries.len()
            invariant
                i <= entries.len(),
                all == entries_view(entries@),
                tab@ == tab_of_entries(all.take(i as int)),
                keys_distinct(tab@),
            decreases entries.len() - i,
        {
            assert(all.take(i + 1).drop_last() =~= all.take(i as int));
            tab.set_balance(entries[i].0.as_str(), entries[i].1);
            i += 1;
        }
        assert(all.take(i as int) =~= all);
        tab
    }

    /// The number of users of the tab.
    pub fn len(&self) -> (n: usize)
        ensures
            n == self@.len(),
    {
        self.users.len()
    }

    /// The users of the tab with their balances, in the order of the tab.
    pub fn entries(&self) -> (entries: Vec<(String, i32)>)
        ensures
            entries_view(entries@) == self@,
            keys_distinct(self@),
    {
        proof {
            use_type_invariant(self);
        }
        let mut entries: Vec<(String, i32)> = Vec::new();
        let mut i: usize = 0;
        while i < self.users.len()
            invariant
                i <= self.users.len(),
                entries_view(entries@) == self@.take(i as int),
            decreases self.users.len() - i,
        {
            let ghost listed = entries@;
            let user = self.users[i].0.clone();
            let balance = self.users[i].1;
            entries.push((user, balance));
            assert(entries_view(entries@) =~= entries_view(listed).push((user@, balance as int)));
            assert(self@.take(i + 1) =~= self@.take(i as int).push(self@[i as int]));
            i += 1;
        }
        assert(self@.take(i as int) =~= self@);
        entries
    }

    /// The balance of `user`: zero for a user that the tab does not know.
    pub fn balance_of(&self, user: &str) -> (balance: i32)
        ensures
            balance == balance_in(self@, user@),
    {
        proof {
            use_type_invariant(self);
        }
        match find_key(&self.users, user) {
            Some(i) => {
                proof {
                    lemma_place_of_unique(self@, user@, i as int);
                }
                self.users[i].1
            },
            None => {
                proof {
                    lemma_no_place_no_key(self@, user@);
                }
                0
            },
        }
    }

    /// Sets the balance of `user`, who joins the tab as its last user if the
    /// tab did not know them.
    pub fn set_balance(&mut self, user: &str, balance: i32)
        ensures
            final(self)@ == with_entry(old(self)@, user@, balance as int),
            keys_distinct(final(self)@),
    {
        proof {
            use_type_invariant(&*self);
            lemma_with_entry(self@, user@, balance as int);
        }
        let ghost before = self@;
        // The list leaves the tab while it changes, and comes back whole.
        let mut users: Vec<(String, i32)> = Vec::new();
        std::mem::swap(&mut self.users, &mut users);
        match find_key(&users, user) {
            Some(i) => {
                proof {
                    lemma_place_of_unique(before, user@, i as int);
                }
                users[i].1 = balance;
            },
            None => {
                proof {
                    lemma_no_place_no_key(before, user@);
                }
                users.push((user.to_owned(), balance));
            },
        }
        assert(entries_view(users@) =~= with_entry(before, user@, balance as int));
        self.users = users;
    }

    /// Adds `delta` to the balance of `user`, who joins the tab if the tab did
    /// not know them.
    fn shift_balance(&mut self, user: &str, delta: i64)
        requires
            i32::MIN <= delta <= -(i32::MIN as int),
            is_balance(balance_in(old(self)@, user@) + delta),
        ensures
            final(self)@ == credited(old(self)@, user@, delta as int),
            keys_distinct(final(self)@),
    {
        let balance = self.balance_of(user);
        self.set_balance(user, (balance as i64 + delta) as i32);
    }

    /// Adds `amount` to the balance of `user`, who joins the tab as its last
    /// user if the tab did not know them. The new balance must fit in an `i32`.
    pub fn credit(&mut self, user: &str, amount: i32)
        requires
            is_balance(balance_in(old(self)@, user@) + amount),
        ensures
            final(self)@ == credited(old(self)@, user@, amount as int),
            keys_distinct(final(self)@),
    {
        self.shift_balance(user, amount as i64);
    }

    /// The sum of all balances.
    fn sum(&self) -> (sum: i128)
        ensures
            sum == total(self@),
            -0x8000_0000 * self@.len() <= sum <= 0x8000_0000 * self@.len(),
    {
        let mut sum: i128 = 0;
        let mut i: usize = 0;
        while i < self.users.len()
            invariant
                i <= self.users.len(),
                sum == total(self@.take(i as int)),
                -0x8000_0000 * i <= sum <= 0x8000_0000 * i,
            decreases self.users.len() - i,
        {
            assert(self@.take(i + 1).drop_last() =~= self@.take(i as int));
            sum = sum + self.users[i].1 as i128;
            i += 1;
        }
        assert(self@.take(i as int) =~= self@);
        sum
    }

    /// The mean balance, rounded towards zero; zero for a tab without users.
    fn mean_balance(&self) -> (m: i128)
        ensures
            m == mean(self@),
            -0x8000_0000 * self@.len() <= m <= 0x8000_0000 * self@.len(),
    {
        let n = self.users.len();
        if n == 0 {
            return 0;
        }
        let sum = self.sum();
        if sum >= 0 {
            proof {
                lemma_div_nonincreasing(sum as int, n as int);
                lemma_div_pos_is_pos(sum as int, n as int);
            }
            (sum as u128 / n as u128) as i128
        } else {
            proof {
                lemma_div_nonincreasing(-sum as int, n as int);
                lemma_div_pos_is_pos(-sum as int, n as int);
            }
            -(((-sum) as u128 / n as u128) as i128)
        }
    }

    /// Whether `rebalance` can store every balance that it computes.
    pub fn can_rebalance(&self) -> (r: bool)
        ensures
            r == rebalance_fits(self@),
    {
        let m = self.mean_balance();
        let mut i: usize = 0;
        while i < self.users.len()
            invariant
                i <= self.users.len(),
                m == mean(self@),
                -0x8000_0000 * self@.len() <= m <= 0x8000_0000 * self@.len(),
                forall|j: int| 0 <= j < i ==> is_balance((#[trigger] self@[j]).1 - m),
            decreases self.users.len() - i,
        {
            let shifted: i128 = self.users[i].1 as i128 - m;
            if shifted < i32::MIN as i128 || shifted > i32::MAX as i128 {
                assert(!is_balance(self@[i as int].1 - mean(self@)));
                return false;
            }
            i += 1;
        }
        true
    }

    /// Takes the mean balance, rounded towards zero, from every balance, so
    /// that the balances add up to nearly nothing. A tab without users stays as
    /// it is. Every new balance must fit in an `i32`.
    pub fn rebalance(&mut self)
        requires
            rebalance_fits(old(self)@),
        ensures
            final(self)@ == rebalanced(old(self)@),
            keys_distinct(final(self)@),
    {
        proof {
            use_type_invariant(&*self);
        }
        let ghost before = self@;
        let m = self.mean_balance();
        let mut users: Vec<(String, i32)> = Vec::new();
        std::mem::swap(&mut self.users, &mut users);
        let mut i: usize = 0;
        while i < users.len()
            invariant
                i <= users.len(),
                users.len() == before.len(),
                m == mean(before),
                rebalance_fits(before),
                -0x8000_0000 * before.len() <= m <= 0x8000_0000 * before.len(),
                forall|j: int|
                    0 <= j < i ==> (#[trigger] entries_view(users@)[j]) == (
                        before[j].0,
                        before[j].1 - m,
                    ),
                forall|j: int|
                    i <= j < users.len() ==> (#[trigger] entries_view(users@)[j]) == before[j],
            decreases users.len() - i,
        {
            let ghost listed = entries_view(users@);
            assert(listed[i as int] == before[i as int]);
            assert(is_balance(before[i as int].1 - mean(before)));
            let shifted: i128 = users[i].1 as i128 - m;
            users[i].1 = shifted as i32;
            assert forall|j: int| 0 <= j < users.len() && j != i implies (#[trigger] entries_view(
                users@,
            )[j]) == listed[j] by {}
            i += 1;
        }
        assert(entries_view(users@) =~= rebalanced(before));
        proof {
            lemma_rebalanced_lists_the_same_users(before);
        }
        self.users = users;
    }

    /// The balance report of the tab: a heading, then a line for each user
    /// with their balance, in the order of the tab.
    pub fn format_balance(&self) -> (report: String)
        ensures
            report@ == balance_report(self@),
    {
        let mut report = REPORT_HEADING.to_owned();
        let mut i: usize = 0;
        while i < self.users.len()
            invariant
                i <= self.users.len(),
                report@ == balance_report(self@.take(i as int)),
            decreases self.users.len() - i,
        {
            let ghost lines = report@;
            let amount = format_amount(self.users[i].1);
            report.append("\n - ");
            report.append(self.users[i].0.as_str());
            report.append(": ");
            report.append(amount.as_str());
            assert(self@.take(i + 1).drop_last() =~= self@.take(i as int));
            assert(report@ =~= lines + balance_line(self@[i as int]));
            i += 1;
        }
        assert(self@.take(i as int) =~= self@);
        report
    }

    /// Looks for the one user whose identifier contains `txt`, matching
    /// characters exactly.
    ///
    /// Fails with `NotFound` where no identifier contains `txt`, and with
    /// `Ambiguous` where two or more do.
    pub fn find_user(&self, txt: &str) -> (r: Result<String, SearchError>)
        ensures
            match r {
                Ok(user) => search(self@, txt@) == Ok::<Seq<char>, SearchError>(user@),
                Err(e) => search(self@, txt@) == Err::<Seq<char>, SearchError>(e),
            },
    {
        let needle = chars_of(txt);
        let mut found: Option<usize> = None;
        let mut i: usize = 0;
        while i < self.users.len()
            invariant
                i <= self.users.len(),
                needle@ == txt@,
                match found {
                    None => forall|j: int| 0 <= j < i ==> !is_hit(self@, txt@, j),
                    Some(k) => k < i && is_hit(self@, txt@, k as int) && forall|j: int|
                        0 <= j < i && j != k ==> !is_hit(self@, txt@, j),
                },
            decreases self.users.len() - i,
        {
            let name = chars_of(self.users[i].0.as_str());
            assert(name@ == self@[i as int].0);
            if contains_chars(&name, &needle) {
                assert(is_hit(self@, txt@, i as int));
                if let Some(k) = found {
                    return Err(SearchError::Ambiguous);
                }
                found = Some(i);
            }
            i += 1;
        }
        match found {
            None => Err(SearchError::NotFound),
            Some(k) => {
                assert forall|a: int, b: int|
                    a != b && is_hit(self@, txt@, a) implies !is_hit(self@, txt@, b) by {}
                Ok(self.users[k].0.clone())
            },
        }
    }
}

/// The tab of `room` in `ledger`: a tab without users for a room that the
/// ledger does not hold.
pub open spec fn tab_in(ledger: Ledger, room: Seq<char>) -> Tab {
    if ledger.contains_key(room) {
        ledger[room]
    } else {
        Tab::empty()
    }
}

/// Every tab of `ledger` lists each of its users once.
pub open spec fn tabs_valid(ledger: Ledger) -> bool {
    forall|room: Seq<char>| #[trigger] ledger.contains_key(room) ==> keys_distinct(ledger[room])
}

/// The ledger after `user` paid `amount` in `room`.
pub open spec fn after_pay(
    ledger: Ledger,
    amount: int,
    room: Seq<char>,
    user: Seq<char>,
) -> Ledger {
    ledger.insert(room, credited(tab_in(ledger, room), user, amount))
}

/// Whether the balance of `user` in `room` can still be stored once `amount`
/// is added to it.
pub open spec fn pay_fits(ledger: Ledger, amount: int, room: Seq<char>, user: Seq<char>) -> bool {
    is_balance(balance_in(tab_in(ledger, room), user) + amount)
}

/// The ledger after `user` asked to pay `amount` in `room` to the user that
/// `txt` names: the payment is made where the search finds one user, and
/// nothing changes where it fails.
pub open spec fn after_payto(
    ledger: Ledger,
    amount: int,
    room: Seq<char>,
    user: Seq<char>,
    txt: Seq<char>,
) -> Ledger {
    match search(tab_in(ledger, room), txt) {
        Ok(other) => ledger.insert(room, transferred(tab_in(ledger, room), user, other, amount)),
        Err(_) => ledger,
    }
}

/// Whether both balances that a payment from `user` to the user that `txt`
/// names would change can still be stored after it. A payment that finds
/// nobody, or the payer, changes no balance.
pub open spec fn payto_fits(
    ledger: Ledger,
    amount: int,
    room: Seq<char>,
    user: Seq<char>,
    txt: Seq<char>,
) -> bool {
    match search(tab_in(ledger, room), txt) {
        Ok(other) => other == user || (is_balance(balance_in(tab_in(ledger, room), user) + amount)
            && is_balance(balance_in(tab_in(ledger, room), other) - amount)),
        Err(_) => true,
    }
}

/// The ledger after the tab of `room` was rebalanced; a room without a tab
/// gets none.
pub open spec fn after_rebalance(ledger: Ledger, room: Seq<char>) -> Ledger {
    if ledger.contains_key(room) {
        ledger.insert(room, rebalanced(ledger[room]))
    } else {
        ledger
    }
}

/// What is reported of `room`: the balance report of its tab, or one fixed
/// sentence for a room without a tab.
pub open spec fn room_report(ledger: Ledger, room: Seq<char>) -> Seq<char> {
    if ledger.contains_key(room) {
        balance_report(ledger[room])
    } else {
        EMPTY_TAB_NOTICE@
    }
}

/// What a list of stored rooms says of the ledger: each room with its tab.
pub open spec fn rooms_view(rooms: Seq<(String, RoomTabContent)>) -> Seq<(Seq<char>, Tab)> {
    rooms.map_values(|e: (String, RoomTabContent)| (e.0@, e.1@))
}

/// The ledger: one tab for each room in which a payment was recorded.
///
/// A room gets its tab with the first payment recorded in it, or when its tab
/// is restored, and keeps it from then on.
#[derive(Debug)]
pub struct TabStore {
    rooms: Vec<(String, RoomTabContent)>,
}

impl View for TabStore {
    type V = Ledger;

    closed spec fn view(&self) -> Ledger {
        as_map(rooms_view(self.rooms@))
    }
}

impl TabStore {
    /// What holds of every ledger: no room is held twice, and no tab lists a
    /// user twice.
    #[verifier::type_invariant]
    pub closed spec fn holds_each_room_once(&self) -> bool {
        &&& keys_distinct(rooms_view(self.rooms@))
        &&& forall|i: int|
            0 <= i < self.rooms@.len() ==> keys_distinct((#[trigger] self.rooms@[i]).1@)
    }

    /// A ledger without rooms.
    pub fn new() -> (store: TabStore)
        ensures
            store@ == Ledger::empty(),
            tabs_valid(store@),
    {
        let store = TabStore { rooms: Vec::new() };
        assert(store@ =~= Ledger::empty());
        store
    }

    /// The rooms that have a tab, each once.
    pub fn rooms(&self) -> (rooms: Vec<String>)
        ensures
            strings_view(rooms@).no_duplicates(),
            forall|room: Seq<char>|
                strings_view(rooms@).contains(room) <==> self@.contains_key(room),
    {
        proof {
            use_type_invariant(self);
        }
        let ghost held = rooms_view(self.rooms@);
        let mut rooms: Vec<String> = Vec::new();
        let mut i: usize = 0;
        while i < self.rooms.len()
            invariant
                i <= self.rooms.len(),
                held == rooms_view(self.rooms@),
                rooms@.len() == i,
                forall|j: int| 0 <= j < i ==> (#[trigger] strings_view(rooms@)[j]) == held[j].0,
            decreases self.rooms.len() - i,
        {
            let ghost listed = strings_view(rooms@);
            rooms.push(self.rooms[i].0.clone());
            assert forall|j: int| 0 <= j < i + 1 implies (#[trigger] strings_view(rooms@)[j])
                == held[j].0 by {
                if j < i {
                    assert(strings_view(rooms@)[j] == listed[j]);
                }
            }
            i += 1;
        }
        proof {
            let names = strings_view(rooms@);
            assert forall|a: int, b: int| 0 <= a < names.len() && 0 <= b < names.len() && a
                != b implies names[a] != names[b] by {
                if a < b {
                    assert(held[a].0 != held[b].0);
                } else {
                    assert(held[b].0 != held[a].0);
                }
            }
            assert forall|room: Seq<char>| names.contains(room) <==> self@.contains_key(room) by {
                if names.contains(room) {
                    let j = choose|j: int| 0 <= j < names.len() && names[j] == room;
                    assert(key_at(held, room, j));
                }
                if self@.contains_key(room) {
                    let j = place_of(held, room);
                    assert(key_at(held, room, j));
                    assert(names[j] == room);
                }
            }
        }
        rooms
    }

    /// Every tab of the ledger lists each of its users once.
    pub proof fn lemma_tabs_valid(&self)
        requires
            self.holds_each_room_once(),
        ensures
            tabs_valid(self@),
    {
        let s = rooms_view(self.rooms@);
        assert forall|room: Seq<char>| #[trigger] self@.contains_key(room) implies keys_distinct(
            self@[room],
        ) by {
            let i = place_of(s, room);
            assert(key_at(s, room, i));
            assert(s[i].1 == self.rooms@[i].1@);
        }
    }

    /// Puts `tab` in the place of the tab of `room`, or gives the room its
    /// first tab. Used to load a ledger that was saved: nothing of the tab is
    /// checked or changed.
    pub fn restore(&mut self, room: &str, tab: RoomTabContent)
        ensures
            final(self)@ == old(self)@.insert(room@, tab@),
            tabs_valid(final(self)@),
    {
        proof {
            use_type_invariant(&*self);
            use_type_invariant(&tab);
        }
        let ghost before = rooms_view(self.rooms@);
        let ghost tab_view = tab@;
        proof {
            lemma_as_map_with_entry(before, room@, tab_view);
        }
        let mut rooms: Vec<(String, RoomTabContent)> = Vec::new();
        std::mem::swap(&mut self.rooms, &mut rooms);
        match find_key(&rooms, room) {
            Some(i) => {
                proof {
                    lemma_place_of_unique(before, room@, i as int);
                }
                rooms[i].1 = tab;
            },
            None => {
                proof {
                    lemma_no_place_no_key(before, room@);
                }
                rooms.push((room.to_owned(), tab));
            },
        }
        assert(rooms_view(rooms@) =~= with_entry(before, room@, tab_view));
        self.rooms = rooms;
        proof {
            self.lemma_tabs_valid();
        }
    }

    /// Takes the tab of `room` out of the ledger; a room without a tab gives a
    /// tab without users.
    fn take_tab(&mut self, room: &str) -> (tab: RoomTabContent)
        ensures
            tab@ == tab_in(old(self)@, room@),
            final(self)@ == old(self)@.remove(room@),
    {
        proof {
            use_type_invariant(&*self);
        }
        let ghost before = rooms_view(self.rooms@);
        proof {
            lemma_as_map_lookup(before, room@);
        }
        let mut rooms: Vec<(String, RoomTabContent)> = Vec::new();
        std::mem::swap(&mut self.rooms, &mut rooms);
        let tab = match find_key(&rooms, room) {
            Some(i) => {
                proof {
                    assert(key_at(before, room@, i as int));
                    lemma_as_map_remove(before, i as int);
                }
                let entry = rooms.remove(i);
                assert(rooms_view(rooms@) =~= before.remove(i as int));
                entry.1
            },
            None => {
                assert(as_map(before).remove(room@) =~= as_map(before));
                RoomTabContent::new()
            },
        };
        self.rooms = rooms;
        tab
    }

    /// The tab of `room`, if the ledger holds one.
    pub fn get(&self, room: &str) -> (r: Option<&RoomTabContent>)
        ensures
            match r {
                Some(tab) => self@.contains_key(room@) && self@[room@] == tab@ && keys_distinct(
                    tab@,
                ),
                None => !self@.contains_key(room@),
            },
    {
        proof {
            use_type_invariant(self);
            lemma_as_map_lookup(rooms_view(self.rooms@), room@);
        }
        match find_key(&self.rooms, room) {
            Some(i) => {
                assert(key_at(rooms_view(self.rooms@), room@, i as int));
                Some(&self.rooms[i].1)
            },
            None => None,
        }
    }

    /// Whether `pay` can store the balance that it computes.
    pub fn can_pay(&self, amount: i32, room: &str, user: &str) -> (r: bool)
        ensures
            r == pay_fits(self@, amount as int, room@, user@),
    {
        let balance = match self.get(room) {
            Some(tab) => tab.balance_of(user),
            None => {
                proof {
                    lemma_no_place_no_key(Tab::empty(), user@);
                }
                0
            },
        };
        let sum: i64 = balance as i64 + amount as i64;
        i32::MIN as i64 <= sum && sum <= i32::MAX as i64
    }

    /// Adds `amount` to the balance of `user` in `room`. The room gets a tab,
    /// and the user joins it, where there was none. The new balance must fit
    /// in an `i32`.
    pub fn pay(&mut self, amount: i32, room: &str, user: &str)
        requires
            pay_fits(old(self)@, amount as int, room@, user@),
        ensures
            final(self)@ == after_pay(old(self)@, amount as int, room@, user@),
            tabs_valid(final(self)@),
    {
        let mut tab = self.take_tab(room);
        tab.credit(user, amount);
        self.restore(room, tab);
    }

    /// Whether `payto` can store the balances that it computes.
    pub fn can_payto(&self, amount: i32, room: &str, user: &str, txt: &str) -> (r: bool)
        ensures
            r == payto_fits(self@, amount as int, room@, user@, txt@),
    {
        match self.get(room) {
            Some(tab) => match tab.find_user(txt) {
                Ok(other) => {
                    if same_text(other.as_str(), user) {
                        true
                    } else {
                        let credit: i64 = tab.balance_of(user) as i64 + amount as i64;
                        let debit: i64 = tab.balance_of(other.as_str()) as i64 - amount as i64;
                        i32::MIN as i64 <= credit && credit <= i32::MAX as i64 && i32::MIN as i64
                            <= debit && debit <= i32::MAX as i64
                    }
                },
                Err(_) => true,
            },
            None => {
                proof {
                    lemma_search_in_empty_tab(txt@);
                }
                true
            },
        }
    }

    /// Records that `user` paid `amount` in `room` to the one user whose
    /// identifier contains `txt`: `user` is credited with the amount and the
    /// other user debited. Both new balances must fit in an `i32`.
    ///
    /// Gives the identifier of the other user. Where the search fails, in a
    /// room without a tab too, it gives the failure and the ledger stays as it
    /// is.
    pub fn payto(&mut self, amount: i32, room: &str, user: &str, txt: &str) -> (r: Result<
        String,
        SearchError,
    >)
        requires
            payto_fits(old(self)@, amount as int, room@, user@, txt@),
        ensures
            match r {
                Ok(other) => search(tab_in(old(self)@, room@), txt@) == Ok::<
                    Seq<char>,
                    SearchError,
                >(other@),
                Err(e) => search(tab_in(old(self)@, room@), txt@) == Err::<
                    Seq<char>,
                    SearchError,
                >(e),
            },
            final(self)@ == after_payto(old(self)@, amount as int, room@, user@, txt@),
            tabs_valid(final(self)@),
    {
        proof {
            use_type_invariant(&*self);
            self.lemma_tabs_valid();
        }
        let found = match self.get(room) {
            Some(tab) => tab.find_user(txt),
            None => {
                proof {
                    lemma_search_in_empty_tab(txt@);
                }
                Err(SearchError::NotFound)
            },
        };
        match found {
            Ok(other) => {
                let ghost tab_before = tab_in(self@, room@);
                if same_text(other.as_str(), user) {
                    proof {
                        lemma_search_finds_known_user(tab_before, txt@);
                        lemma_transfer_to_self(tab_before, user@, amount as int);
                        assert(self@.insert(room@, tab_before) =~= self@);
                    }
                } else {
                    let mut tab = self.take_tab(room);
                    proof {
                        lemma_with_entry(tab@, user@, balance_in(tab@, user@) + amount);
                    }
                    tab.shift_balance(user, amount as i64);
                    tab.shift_balance(other.as_str(), -(amount as i64));
                    self.restore(room, tab);
                }
                Ok(other)
            },
            Err(e) => Err(e),
        }
    }

    /// The balance report of `room`, or one fixed sentence for a room without
    /// a tab.
    pub fn balance(&self, room: &str) -> (report: String)
        ensures
            report@ == room_report(self@, room@),
    {
        match self.get(room) {
            Some(tab) => tab.format_balance(),
            None => EMPTY_TAB_NOTICE.to_owned(),
        }
    }

    /// Whether `rebalance` can store every balance that it computes.
    pub fn can_rebalance(&self, room: &str) -> (r: bool)
        ensures
            r == rebalance_fits(tab_in(self@, room@)),
    {
        match self.get(room) {
            Some(tab) => tab.can_rebalance(),
            None => true,
        }
    }

    /// Takes the mean balance of `room`, rounded towards zero, from every
    /// balance of its tab. Nothing changes for a room without a tab, nor for a
    /// tab without users. Every new balance must fit in an `i32`.
    pub fn rebalance(&mut self, room: &str)
        requires
            rebalance_fits(tab_in(old(self)@, room@)),
        ensures
            final(self)@ == after_rebalance(old(self)@, room@),
            tabs_valid(final(self)@),
    {
        proof {
            use_type_invariant(&*self);
            self.lemma_tabs_valid();
        }
        if self.get(room).is_some() {
            let mut tab = self.take_tab(room);
            tab.rebalance();
            self.restore(room, tab);
        }
    }
}

/// A search in a tab without users finds nobody.
pub proof fn lemma_search_in_empty_tab(txt: Seq<char>)
    ensures
        search(Tab::empty(), txt) == Err::<Seq<char>, SearchError>(SearchError::NotFound),
{
}

/// The user that a search finds is a user of the tab, and their identifier
/// contains the text searched for.
pub proof fn lemma_search_finds_known_user(t: Tab, txt: Seq<char>)
    requires
        search(t, txt) is Ok,
    ensures
        has_key(t, search(t, txt)->Ok_0),
        is_substring(txt, search(t, txt)->Ok_0),
{
    let i = choose|i: int| is_hit(t, txt, i);
    assert(is_hit(t, txt, i));
    assert(key_at(t, t[i].0, i));
}

/// A search for the whole identifier of a user of the tab finds that user,
/// unless the identifier of another user contains it as well.
pub proof fn lemma_search_by_whole_identifier(t: Tab, user: Seq<char>)
    requires
        has_key(t, user),
    ensures
        search(t, user) == Ok::<Seq<char>, SearchError>(user) || search(t, user) == Err::<
            Seq<char>,
            SearchError,
        >(SearchError::Ambiguous),
{
    let p = place_of(t, user);
    assert(key_at(t, user, p));
    assert(occurs_at(user, user, 0)) by {
        assert(user.subrange(0, user.len() as int) =~= user);
    }
    assert(is_hit(t, user, p));
    if !(exists|i: int, j: int| i != j && is_hit(t, user, i) && is_hit(t, user, j)) {
        let found = choose|i: int| is_hit(t, user, i);
        assert(is_hit(t, user, found));
        assert(found == p);
    }
}

/// A payment from a user of the tab to themselves changes nothing.
pub proof fn lemma_transfer_to_self(t: Tab, user: Seq<char>, amount: int)
    requires
        keys_distinct(t),
        has_key(t, user),
    ensures
        transferred(t, user, user, amount) == t,
{
    let p = place_of(t, user);
    assert(key_at(t, user, p));
    let credited_tab = credited(t, user, amount);
    lemma_with_entry(t, user, balance_in(t, user) + amount);
    assert(key_at(credited_tab, user, p));
    lemma_place_of_unique(credited_tab, user, p);
    assert(transferred(t, user, user, amount) =~= t);
}

/// Rebalancing changes balances only: the tab lists the same users at the same
/// places, each once as before.
pub proof fn lemma_rebalanced_lists_the_same_users(t: Tab)
    requires
        keys_distinct(t),
    ensures
        rebalanced(t).len() == t.len(),
        forall|i: int| 0 <= i < t.len() ==> (#[trigger] rebalanced(t)[i]).0 == t[i].0,
        keys_distinct(rebalanced(t)),
{
    assert forall|a: int, b: int| 0 <= a < b < t.len() implies (#[trigger] rebalanced(t)[a]).0 != (
    #[trigger] rebalanced(t)[b]).0 by {
        assert(t[a].0 != t[b].0);
    }
}

/// A new last user adds their balance to the total.
proof fn lemma_total_push(t: Tab, entry: (Seq<char>, int))
    ensures
        total(t.push(entry)) == total(t) + entry.1,
{
    assert(t.push(entry).drop_last() =~= t);
}

/// A change of one entry changes the total by the change of its balance.
proof fn lemma_total_update(t: Tab, i: int, entry: (Seq<char>, int))
    requires
        0 <= i < t.len(),
    ensures
        total(t.update(i, entry)) == total(t) - t[i].1 + entry.1,
    decreases t.len(),
{
    if i == t.len() - 1 {
        assert(t.update(i, entry).drop_last() =~= t.drop_last());
    } else {
        lemma_total_update(t.drop_last(), i, entry);
        assert(t.update(i, entry).drop_last() =~= t.drop_last().update(i, entry));
    }
}

/// Lowering every balance by the same amount lowers the total by that amount
/// for each user.
proof fn lemma_total_lowered(t: Tab, by: int)
    ensures
        total(lowered(t, by)) == total(t) - t.len() * by,
    decreases t.len(),
{
    if t.len() > 0 {
        lemma_total_lowered(t.drop_last(), by);
        assert(lowered(t, by).drop_last() =~= lowered(t.drop_last(), by));
        assert(t.len() * by == (t.len() - 1) * by + by) by (nonlinear_arith);
    }
}

/// Crediting a user keeps each user listed once, raises the balance of that
/// user and the total by the amount, and leaves every other balance as it was.
pub proof fn lemma_credited(t: Tab, user: Seq<char>, amount: int)
    requires
        keys_distinct(t),
    ensures
        keys_distinct(credited(t, user, amount)),
        has_key(credited(t, user, amount), user),
        balance_in(credited(t, user, amount), user) == balance_in(t, user) + amount,
        forall|other: Seq<char>|
            other != user ==> #[trigger] balance_in(credited(t, user, amount), other) == balance_in(
                t,
                other,
            ),
        forall|other: Seq<char>|
            other != user ==> has_key(credited(t, user, amount), other) == has_key(t, other),
        total(credited(t, user, amount)) == total(t) + amount,
{
    let balance = balance_in(t, user) + amount;
    lemma_with_entry(t, user, balance);
    assert(value_or(credited(t, user, amount), user, 0int) == balance);
    assert forall|other: Seq<char>| other != user implies #[trigger] balance_in(
        credited(t, user, amount),
        other,
    ) == balance_in(t, other) by {
        assert(value_or(credited(t, user, amount), other, 0int) == value_or(t, other, 0int));
    }
    if has_key(t, user) {
        assert(key_at(t, user, place_of(t, user)));
        lemma_total_update(t, place_of(t, user), (user, balance));
    } else {
        lemma_total_push(t, (user, balance));
    }
}

/// Two payments by one user in one room add up: the balance of the user grows
/// by the sum of the two amounts, from zero where the room or the user was
/// not known.
pub proof fn lemma_pay_twice_adds_up(
    ledger: Ledger,
    first: int,
    second: int,
    room: Seq<char>,
    user: Seq<char>,
)
    requires
        tabs_valid(ledger),
    ensures
        balance_in(
            tab_in(after_pay(after_pay(ledger, first, room, user), second, room, user), room),
            user,
        ) == balance_in(tab_in(ledger, room), user) + first + second,
        !ledger.contains_key(room) || !has_key(ledger[room], user) ==> balance_in(
            tab_in(after_pay(after_pay(ledger, first, room, user), second, room, user), room),
            user,
        ) == first + second,
{
    let t = tab_in(ledger, room);
    lemma_no_place_no_key(Tab::empty(), user);
    lemma_credited(t, user, first);
    lemma_credited(credited(t, user, first), user, second);
}

/// A payment changes one balance only: that of the payer in the room of the
/// payment.
pub proof fn lemma_pay_changes_one_balance(
    ledger: Ledger,
    amount: int,
    room: Seq<char>,
    user: Seq<char>,
    other_room: Seq<char>,
    other_user: Seq<char>,
)
    requires
        tabs_valid(ledger),
        other_room != room || other_user != user,
    ensures
        balance_in(tab_in(after_pay(ledger, amount, room, user), other_room), other_user)
            == balance_in(tab_in(ledger, other_room), other_user),
        tabs_valid(after_pay(ledger, amount, room, user)),
{
    lemma_credited(tab_in(ledger, room), user, amount);
}

/// A payment from one user to another moves the amount and keeps the total of
/// the room: the payer has the amount more, the other user has it less, and
/// the sum of all balances of the room is as it was. A payment that finds the
/// payer themselves changes nothing.
pub proof fn lemma_payto_conserves(
    ledger: Ledger,
    amount: int,
    room: Seq<char>,
    user: Seq<char>,
    txt: Seq<char>,
)
    requires
        tabs_valid(ledger),
        search(tab_in(ledger, room), txt) is Ok,
    ensures
        ({
            let other = search(tab_in(ledger, room), txt)->Ok_0;
            let before = tab_in(ledger, room);
            let after = tab_in(after_payto(ledger, amount, room, user, txt), room);
            &&& total(after) == total(before)
            &&& other != user ==> balance_in(after, user) == balance_in(before, user) + amount
            &&& other != user ==> balance_in(after, other) == balance_in(before, other) - amount
            &&& other == user ==> after == before
            &&& forall|third: Seq<char>|
                third != user && third != other ==> #[trigger] balance_in(after, third)
                    == balance_in(before, third)
        }),
{
    let other = search(tab_in(ledger, room), txt)->Ok_0;
    let before = tab_in(ledger, room);
    lemma_credited(before, user, amount);
    lemma_credited(credited(before, user, amount), other, -amount);
    if other == user {
        lemma_search_finds_known_user(before, txt);
        lemma_transfer_to_self(before, user, amount);
    }
}

/// Where the identifiers of two different users of the room both contain the
/// text searched for, the search is ambiguous and the payment changes nothing.
pub proof fn lemma_payto_ambiguous(
    ledger: Ledger,
    amount: int,
    room: Seq<char>,
    user: Seq<char>,
    txt: Seq<char>,
    first: Seq<char>,
    second: Seq<char>,
)
    requires
        first != second,
        has_key(tab_in(ledger, room), first),
        has_key(tab_in(ledger, room), second),
        is_substring(txt, first),
        is_substring(txt, second),
    ensures
        search(tab_in(ledger, room), txt) == Err::<Seq<char>, SearchError>(SearchError::Ambiguous),
        after_payto(ledger, amount, room, user, txt) == ledger,
{
    let t = tab_in(ledger, room);
    let i = place_of(t, first);
    let j = place_of(t, second);
    assert(key_at(t, first, i));
    assert(key_at(t, second, j));
    assert(i != j && is_hit(t, txt, i) && is_hit(t, txt, j));
}

/// Where no identifier of a user of the room contains the text searched for,
/// the search finds nobody and the payment changes nothing.
pub proof fn lemma_payto_not_found(
    ledger: Ledger,
    amount: int,
    room: Seq<char>,
    user: Seq<char>,
    txt: Seq<char>,
)
    requires
        forall|other: Seq<char>| has_key(tab_in(ledger, room), other) ==> !is_substring(txt, other),
    ensures
        search(tab_in(ledger, room), txt) == Err::<Seq<char>, SearchError>(SearchError::NotFound),
        after_payto(ledger, amount, room, user, txt) == ledger,
{
    let t = tab_in(ledger, room);
    assert forall|i: int| !is_hit(t, txt, i) by {
        if is_hit(t, txt, i) {
            assert(key_at(t, t[i].0, i));
        }
    }
}

/// A search fails exactly as the identifiers of the tab say: it finds nobody
/// if and only if none contains the text, and is ambiguous if and only if two
/// different users have it in their identifiers.
pub proof fn lemma_search_failures(t: Tab, txt: Seq<char>)
    requires
        keys_distinct(t),
    ensures
        search(t, txt) == Err::<Seq<char>, SearchError>(SearchError::NotFound) <==> (forall|
            user: Seq<char>,
        |
            has_key(t, user) ==> !is_substring(txt, user)),
        search(t, txt) == Err::<Seq<char>, SearchError>(SearchError::Ambiguous) <==> (exists|
            first: Seq<char>,
            second: Seq<char>,
        |
            first != second && has_key(t, first) && has_key(t, second) && is_substring(txt, first)
                && is_substring(txt, second)),
{
    if forall|user: Seq<char>| has_key(t, user) ==> !is_substring(txt, user) {
        assert forall|i: int| !is_hit(t, txt, i) by {
            if is_hit(t, txt, i) {
                assert(key_at(t, t[i].0, i));
            }
        }
    } else {
        let user = choose|user: Seq<char>| has_key(t, user) && is_substring(txt, user);
        assert(key_at(t, user, place_of(t, user)));
        assert(is_hit(t, txt, place_of(t, user)));
    }
    if exists|first: Seq<char>, second: Seq<char>|
        first != second && has_key(t, first) && has_key(t, second) && is_substring(txt, first)
            && is_substring(txt, second) {
        let (first, second) = choose|first: Seq<char>, second: Seq<char>|
            first != second && has_key(t, first) && has_key(t, second) && is_substring(txt, first)
                && is_substring(txt, second);
        assert(key_at(t, first, place_of(t, first)));
        assert(key_at(t, second, place_of(t, second)));
        assert(is_hit(t, txt, place_of(t, first)) && is_hit(t, txt, place_of(t, second)));
    }
    if exists|i: int, j: int| i != j && is_hit(t, txt, i) && is_hit(t, txt, j) {
        let (i, j) = choose|i: int, j: int| i != j && is_hit(t, txt, i) && is_hit(t, txt, j);
        assert(key_at(t, t[i].0, i) && key_at(t, t[j].0, j));
        if i < j {
            assert(t[i].0 != t[j].0);
        } else {
            assert(t[j].0 != t[i].0);
        }
    }
}

/// Rebalancing a room whose balances add up to nothing changes nothing.
pub proof fn lemma_rebalance_of_balanced_room(ledger: Ledger, room: Seq<char>)
    requires
        total(tab_in(ledger, room)) == 0,
    ensures
        after_rebalance(ledger, room) == ledger,
{
    let t = tab_in(ledger, room);
    if ledger.contains_key(room) {
        assert(mean(t) == 0);
        assert(rebalanced(t) =~= t);
        assert(ledger.insert(room, t) =~= ledger);
    }
}

/// After rebalancing a room with users, what its balances add up to is
/// smaller in size than the number of its users.
pub proof fn lemma_rebalance_leaves_little(ledger: Ledger, room: Seq<char>)
    requires
        tab_in(ledger, room).len() > 0,
    ensures
        -tab_in(ledger, room).len() < total(tab_in(after_rebalance(ledger, room), room)) < tab_in(
            ledger,
            room,
        ).len(),
        tab_in(after_rebalance(ledger, room), room).len() == tab_in(ledger, room).len(),
{
    let t = tab_in(ledger, room);
    let n = t.len() as int;
    lemma_total_lowered(t, mean(t));
    if total(t) >= 0 {
        lemma_fundamental_div_mod(total(t), n);
        lemma_mod_bound(total(t), n);
    } else {
        lemma_fundamental_div_mod(-total(t), n);
        lemma_mod_bound(-total(t), n);
        assert(n * (-((-total(t)) / n)) == -(n * ((-total(t)) / n))) by (nonlinear_arith);
    }
}

/// Rebalancing a room a second time changes nothing.
pub proof fn lemma_rebalance_twice(ledger: Ledger, room: Seq<char>)
    ensures
        after_rebalance(after_rebalance(ledger, room), room) == after_rebalance(ledger, room),
{
    if ledger.contains_key(room) {
        let once = after_rebalance(ledger, room);
        let t = once[room];
        if t.len() > 0 {
            lemma_rebalance_leaves_little(ledger, room);
            if total(t) >= 0 {
                lemma_basic_div(total(t), t.len() as int);
            } else {
                lemma_basic_div(-total(t), t.len() as int);
            }
        }
        assert(mean(t) == 0);
        assert(rebalanced(t) =~= t);
        assert(once.insert(room, t) =~= once);
    }
}

/// A list of users and balances that names no user twice gives the tab that
/// lists the same: the balances that were saved from a tab are the balances
/// that are loaded from what was saved.
pub proof fn lemma_tab_of_its_entries(t: Tab)
    requires
        keys_distinct(t),
    ensures
        tab_of_entries(t) == t,
    decreases t.len(),
{
    if t.len() > 0 {
        let rest = t.drop_last();
        assert forall|i: int, j: int| 0 <= i < j < rest.len() implies (#[trigger] rest[i]).0 != (
        #[trigger] rest[j]).0 by {
            assert(t[i].0 != t[j].0);
        }
        lemma_tab_of_its_entries(rest);
        assert forall|i: int| 0 <= i < rest.len() implies (#[trigger] rest[i]).0 != t.last().0 by {
            assert(t[i].0 != t[t.len() - 1].0);
        }
        lemma_no_place_no_key(rest, t.last().0);
        assert(rest.push(t.last()) =~= t);
    } else {
        assert(t =~= Tab::empty());
    }
}

} // verus!
