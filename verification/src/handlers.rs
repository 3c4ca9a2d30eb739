//! What the bot does with what happens in a room: the commands it reads in
//! messages, its replies to them, and how long it waits before it tries again
//! to join a room.

use vstd::prelude::*;
use vstd::slice::slice_subrange;
use vstd::string::StringExecFns;
use crate::tabs::{
    after_pay, after_payto, after_rebalance, credited, lemma_credited,
    lemma_rebalanced_lists_the_same_users, pay_fits, payto_fits, rebalance_fits, room_report,
    search, tab_in, tabs_valid, Ledger, SearchError, TabStore,
};
use crate::text::{join_words, joined, same_text, split_words, strings_view, texts_view, words};
use crate::utils::{format_amount, formatted_amount, parse_amount, parsed_amount};

verus! {

/// The reply to a `!paid` command that lacks an amount.
pub const PAID_USAGE: &'static str =
    "Usage: !paid <amount> <Any description you like>\n<amount> must be positive, without units, using `.` as cent separator";

/// The reply to a `!paidto` command that lacks a user or an amount.
pub const PAIDTO_USAGE: &'static str =
    "Usage: !paidto <username> <amount> <Any description you like>\n<amount> must be positive, without units, using `.` as cent separator";

/// The first reply to a `!rebalance` command.
pub const REBALANCE_NOTICE: &'static str = "Rebalancing accounts to 0 mean.";

/// What follows the name in the reply to a payment to a user whose name fits
/// no user.
pub const UNKNOWN_NAME_TIP: &'static str =
    "\" is unknown.\n\n                    Tip: they may need to issue a \"!paid 0\" command for me to know them.";

/// A command read in a message.
#[derive(Debug, PartialEq, Eq)]
pub enum Command {
    /// `!paid <amount> <description...>`: the sender paid `amount` for all.
    Paid { amount: i32, description: String },
    /// `!paid` without an amount that can be read.
    PaidUsage,
    /// `!balance`: report the balances of the room.
    Balance,
    /// `!rebalance`: take the mean balance of the room from every balance.
    Rebalance,
    /// `!paidto <target> <amount> <description...>`: the sender paid `amount`
    /// to the user that `target` names.
    PaidTo { target: String, amount: i32, description: String },
    /// `!paidto` without a user, or without an amount that can be read.
    PaidToUsage,
    /// Any other message: no command.
    Other,
}

/// A command as contracts speak of it, variant for variant: texts by their
/// characters, amounts as integers.
pub enum CommandView {
    /// The sender paid `amount` for all.
    Paid { amount: int, description: Seq<char> },
    /// `!paid` without an amount that can be read.
    PaidUsage,
    /// Report the balances of the room.
    Balance,
    /// Take the mean balance of the room from every balance.
    Rebalance,
    /// The sender paid `amount` to the user that `target` names.
    PaidTo { target: Seq<char>, amount: int, description: Seq<char> },
    /// `!paidto` without a user, or without an amount that can be read.
    PaidToUsage,
    /// No command.
    Other,
}

impl View for Command {
    type V = CommandView;

    open spec fn view(&self) -> CommandView {
        match *self {
            Command::Paid { amount, description } => CommandView::Paid {
                amount: amount as int,
                description: description@,
            },
            Command::PaidUsage => CommandView::PaidUsage,
            Command::Balance => CommandView::Balance,
            Command::Rebalance => CommandView::Rebalance,
            Command::PaidTo { target, amount, description } => CommandView::PaidTo {
                target: target@,
                amount: amount as int,
                description: description@,
            },
            Command::PaidToUsage => CommandView::PaidToUsage,
            Command::Other => CommandView::Other,
        }
    }
}

/// The command that the message `body` holds. The first word of the message
/// names the command; a message without words holds none. The words after the
/// arguments of a payment, joined by single spaces, are its description.
pub open spec fn command_of(body: Seq<char>) -> CommandView {
    let w = words(body);
    if w.len() == 0 {
        CommandView::Other
    } else if w[0] == "!paid"@ {
        if w.len() >= 2 && parsed_amount(w[1]) is Some {
            CommandView::Paid { amount: parsed_amount(w[1])->0, description: joined(w.skip(2)) }
        } else {
            CommandView::PaidUsage
        }
    } else if w[0] == "!balance"@ {
        CommandView::Balance
    } else if w[0] == "!rebalance"@ {
        CommandView::Rebalance
    } else if w[0] == "!paidto"@ {
        if w.len() >= 3 && parsed_amount(w[2]) is Some {
            CommandView::PaidTo {
                target: w[1],
                amount: parsed_amount(w[2])->0,
                description: joined(w.skip(3)),
            }
        } else {
            CommandView::PaidToUsage
        }
    } else {
        CommandView::Other
    }
}

/// Reads the command that the message `body` holds.
pub fn parse_command(body: &str) -> (command: Command)
    ensures
        command@ == command_of(body@),
{
    let w = split_words(body);
    if w.len() == 0 {
        return Command::Other;
    }
    if same_text(w[0], "!paid") {
        if w.len() >= 2 {
            if let Some(amount) = parse_amount(w[1]) {
                let rest = slice_subrange(w.as_slice(), 2, w.len());
                assert(texts_view(rest@) =~= texts_view(w@).skip(2));
                return Command::Paid { amount, description: join_words(rest) };
            }
        }
        Command::PaidUsage
    } else if same_text(w[0], "!balance") {
        Command::Balance
    } else if same_text(w[0], "!rebalance") {
        Command::Rebalance
    } else if same_text(w[0], "!paidto") {
        if w.len() >= 3 {
            if let Some(amount) = parse_amount(w[2]) {
                let rest = slice_subrange(w.as_slice(), 3, w.len());
                assert(texts_view(rest@) =~= texts_view(w@).skip(3));
                return Command::PaidTo {
                    target: w[1].to_owned(),
                    amount,
                    description: join_words(rest),
                };
            }
        }
        Command::PaidToUsage
    } else {
        Command::Other
    }
}

/// What the bot does in answer to a message.
#[derive(Debug, PartialEq, Eq)]
pub enum Reaction {
    /// The message held no command: nothing is sent and nothing has changed.
    Silence,
    /// `messages` are sent to the room, in this order. Where `publish` holds,
    /// a payment was recorded, and the tab of the room is published before
    /// they are sent.
    Reply { publish: bool, messages: Vec<String> },
    /// The command would take a balance out of the range of an `i32`: nothing
    /// is sent and nothing has changed.
    OutOfRange,
}

/// A reaction as contracts speak of it, variant for variant: each message by
/// its characters.
pub enum ReactionView {
    /// Nothing is sent.
    Silence,
    /// `messages` are sent in this order, after the tab of the room where
    /// `publish` holds.
    Reply { publish: bool, messages: Seq<Seq<char>> },
    /// A balance would leave the range of an `i32`.
    OutOfRange,
}

impl View for Reaction {
    type V = ReactionView;

    open spec fn view(&self) -> ReactionView {
        match *self {
            Reaction::Silence => ReactionView::Silence,
            Reaction::Reply { publish, messages } => ReactionView::Reply {
                publish,
                messages: strings_view(messages@),
            },
            Reaction::OutOfRange => ReactionView::OutOfRange,
        }
    }
}

/// The reply that tells of a payment for all.
pub open spec fn paid_notice(sender: Seq<char>, amount: int, description: Seq<char>) -> Seq<char> {
    sender + " paid "@ + formatted_amount(amount) + " for \""@ + description + "\""@
}

/// The reply that tells of a payment to one user.
pub open spec fn paidto_notice(
    sender: Seq<char>,
    amount: int,
    other: Seq<char>,
    description: Seq<char>,
) -> Seq<char> {
    sender + " paid "@ + formatted_amount(amount) + " to "@ + other + " for \""@ + description
        + "\""@
}

/// The reply to a payment to a user whose name fits two or more users.
pub open spec fn ambiguous_notice(target: Seq<char>) -> Seq<char> {
    "Name \""@ + target + "\" is ambiguous."@
}

/// The reply to a payment to a user whose name fits no user.
pub open spec fn unknown_notice(target: Seq<char>) -> Seq<char> {
    "Name \""@ + target + UNKNOWN_NAME_TIP@
}

/// Whether every balance that `command` would change can still be stored
/// after it. Only a payment and a rebalancing change balances.
pub open spec fn command_fits(
    ledger: Ledger,
    room: Seq<char>,
    sender: Seq<char>,
    command: CommandView,
) -> bool {
    match command {
        CommandView::Paid { amount, description } => pay_fits(ledger, amount, room, sender),
        CommandView::PaidTo { target, amount, description } => payto_fits(
            ledger,
            amount,
            room,
            sender,
            target,
        ),
        CommandView::Rebalance => rebalance_fits(tab_in(ledger, room)),
        _ => true,
    }
}

/// The reaction to `command`, sent by `sender` in `room`, on the ledger as it
/// is before the command.
pub open spec fn reaction_to(
    ledger: Ledger,
    room: Seq<char>,
    sender: Seq<char>,
    command: CommandView,
) -> ReactionView {
    if !command_fits(ledger, room, sender, command) {
        ReactionView::OutOfRange
    } else {
        match command {
            CommandView::Other => ReactionView::Silence,
            CommandView::PaidUsage => ReactionView::Reply {
                publish: false,
                messages: seq![PAID_USAGE@],
            },
            CommandView::PaidToUsage => ReactionView::Reply {
                publish: false,
                messages: seq![PAIDTO_USAGE@],
            },
            CommandView::Balance => ReactionView::Reply {
                publish: false,
                messages: seq![room_report(ledger, room)],
            },
            CommandView::Rebalance => ReactionView::Reply {
                publish: false,
                messages: seq![REBALANCE_NOTICE@, room_report(after_rebalance(ledger, room), room)],
            },
            CommandView::Paid { amount, description } => ReactionView::Reply {
                publish: true,
                messages: seq![paid_notice(sender, amount, description)],
            },
            CommandView::PaidTo { target, amount, description } => match search(
                tab_in(ledger, room),
                target,
            ) {
                Ok(other) => ReactionView::Reply {
                    publish: true,
                    messages: seq![paidto_notice(sender, amount, other, description)],
                },
                Err(SearchError::Ambiguous) => ReactionView::Reply {
                    publish: false,
                    messages: seq![ambiguous_notice(target)],
                },
                Err(SearchError::NotFound) => ReactionView::Reply {
                    publish: false,
                    messages: seq![unknown_notice(target)],
                },
            },
        }
    }
}

/// The ledger after `command`, sent by `sender` in `room`. Only a payment or a
/// rebalancing that fits changes it.
pub open spec fn ledger_after(
    ledger: Ledger,
    room: Seq<char>,
    sender: Seq<char>,
    command: CommandView,
) -> Ledger {
    if !command_fits(ledger, room, sender, command) {
        ledger
    } else {
        match command {
            CommandView::Paid { amount, description } => after_pay(ledger, amount, room, sender),
            CommandView::PaidTo { target, amount, description } => after_payto(
                ledger,
                amount,
                room,
                sender,
                target,
            ),
            CommandView::Rebalance => after_rebalance(ledger, room),
            _ => ledger,
        }
    }
}

/// One reply that is no news of the tab.
fn reply(message: String) -> (reaction: Reaction)
    ensures
        reaction@ == (ReactionView::Reply { publish: false, messages: seq![message@] }),
{
    let mut messages: Vec<String> = Vec::new();
    messages.push(message);
    assert(strings_view(messages@) =~= seq![message@]);
    Reaction::Reply { publish: false, messages }
}

/// One reply that tells of a change of the tab.
fn reply_and_publish(message: String) -> (reaction: Reaction)
    ensures
        reaction@ == (ReactionView::Reply { publish: true, messages: seq![message@] }),
{
    let mut messages: Vec<String> = Vec::new();
    messages.push(message);
    assert(strings_view(messages@) =~= seq![message@]);
    Reaction::Reply { publish: true, messages }
}

/// Carries out `command`, sent by `sender` in `room`, on the ledger, and says
/// what to send back.
pub fn run_command(store: &mut TabStore, room: &str, sender: &str, command: Command) -> (reaction:
    Reaction)
    ensures
        reaction@ == reaction_to(old(store)@, room@, sender@, command@),
        final(store)@ == ledger_after(old(store)@, room@, sender@, command@),
        tabs_valid(final(store)@),
{
    proof {
        use_type_invariant(&*store);
        store.lemma_tabs_valid();
    }
    match command {
        Command::Other => Reaction::Silence,
        Command::PaidUsage => reply(PAID_USAGE.to_owned()),
        Command::PaidToUsage => reply(PAIDTO_USAGE.to_owned()),
        Command::Balance => reply(store.balance(room)),
        Command::Rebalance => {
            if !store.can_rebalance(room) {
                return Reaction::OutOfRange;
            }
            store.rebalance(room);
            let mut messages: Vec<String> = Vec::new();
            messages.push(REBALANCE_NOTICE.to_owned());
            messages.push(store.balance(room));
            assert(strings_view(messages@) =~= seq![
                REBALANCE_NOTICE@,
                room_report(after_rebalance(old(store)@, room@), room@),
            ]);
            Reaction::Reply { publish: false, messages }
        },
        Command::Paid { amount, description } => {
            if !store.can_pay(amount, room, sender) {
                return Reaction::OutOfRange;
            }
            store.pay(amount, room, sender);
            let mut message = sender.to_owned();
            message.append(" paid ");
            message.append(format_amount(amount).as_str());
            message.append(" for \"");
            message.append(description.as_str());
            message.append("\"");
            assert(message@ =~= paid_notice(sender@, amount as int, description@));
            reply_and_publish(message)
        },
        Command::PaidTo { target, amount, description } => {
            if !store.can_payto(amount, room, sender, target.as_str()) {
                return Reaction::OutOfRange;
            }
            match store.payto(amount, room, sender, target.as_str()) {
                Ok(other) => {
                    let mut message = sender.to_owned();
                    message.append(" paid ");
                    message.append(format_amount(amount).as_str());
                    message.append(" to ");
                    message.append(other.as_str());
                    message.append(" for \"");
                    message.append(description.as_str());
                    message.append("\"");
                    assert(message@ =~= paidto_notice(
                        sender@,
                        amount as int,
                        other@,
                        description@,
                    ));
                    reply_and_publish(message)
                },
                Err(SearchError::Ambiguous) => {
                    let mut message = "Name \"".to_owned();
                    message.append(target.as_str());
                    message.append("\" is ambiguous.");
                    assert(message@ =~= ambiguous_notice(target@));
                    reply(message)
                },
                Err(SearchError::NotFound) => {
                    let mut message = "Name \"".to_owned();
                    message.append(target.as_str());
                    message.append(UNKNOWN_NAME_TIP);
                    assert(message@ =~= unknown_notice(target@));
                    reply(message)
                },
            }
        },
    }
}

/// Reads the command that the message `body` holds, sent by `sender` in
/// `room`, carries it out on the ledger, and says what to send back.
pub fn on_room_message(store: &mut TabStore, room: &str, sender: &str, body: &str) -> (reaction:
    Reaction)
    ensures
        reaction@ == reaction_to(old(store)@, room@, sender@, command_of(body@)),
        final(store)@ == ledger_after(old(store)@, room@, sender@, command_of(body@)),
        tabs_valid(final(store)@),
{
    let command = parse_command(body);
    run_command(store, room, sender, command)
}

/// What no command does to the ledger. A command changes the tab of its own
/// room at most; it takes no tab away; it leaves each user listed once; and
/// where it fails, is no command, or only asks for a report, it changes
/// nothing at all.
pub proof fn lemma_command_effects(
    ledger: Ledger,
    room: Seq<char>,
    sender: Seq<char>,
    command: CommandView,
)
    requires
        tabs_valid(ledger),
    ensures
        tabs_valid(ledger_after(ledger, room, sender, command)),
        forall|held: Seq<char>|
            ledger.contains_key(held) ==> #[trigger] ledger_after(
                ledger,
                room,
                sender,
                command,
            ).contains_key(held),
        forall|other: Seq<char>|
            other != room ==> ledger_after(ledger, room, sender, command).contains_key(other)
                == ledger.contains_key(other) && tab_in(
                ledger_after(ledger, room, sender, command),
                other,
            ) == tab_in(ledger, other),
        reaction_to(ledger, room, sender, command) is Silence ==> ledger_after(
            ledger,
            room,
            sender,
            command,
        ) == ledger,
        reaction_to(ledger, room, sender, command) is OutOfRange ==> ledger_after(
            ledger,
            room,
            sender,
            command,
        ) == ledger,
        reaction_to(ledger, room, sender, command) matches ReactionView::Reply { publish, .. }
            && !publish && !(command is Rebalance) ==> ledger_after(ledger, room, sender, command)
            == ledger,
{
    let t = tab_in(ledger, room);
    match command {
        CommandView::Paid { amount, description } => {
            lemma_credited(t, sender, amount);
        },
        CommandView::PaidTo { target, amount, description } => {
            if let Ok(other) = search(t, target) {
                lemma_credited(t, sender, amount);
                lemma_credited(credited(t, sender, amount), other, -amount);
            }
        },
        CommandView::Rebalance => {
            if ledger.contains_key(room) {
                lemma_rebalanced_lists_the_same_users(t);
            }
        },
        _ => {},
    }
}

/// Seconds that the bot waits after its first failed attempt to join a room.
pub const FIRST_JOIN_DELAY: u64 = 2;

/// The longest wait, in seconds, after which the bot tries again to join.
pub const LONGEST_JOIN_DELAY: u64 = 3600;

/// What follows a failed attempt to join a room, once the bot has waited
/// `delay` seconds after it: the wait after the next failure, twice as long, or
/// nothing where that wait would be longer than the longest one, and the bot
/// gives the room up.
pub fn next_join_delay(delay: u64) -> (next: Option<u64>)
    ensures
        next == if 2 * delay > LONGEST_JOIN_DELAY {
            None::<u64>
        } else {
            Some((2 * delay) as u64)
        },
{
    if delay > LONGEST_JOIN_DELAY / 2 {
        None
    } else {
        Some(2 * delay)
    }
}

} // verus!
