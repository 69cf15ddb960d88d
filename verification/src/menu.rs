//! The menu: what it shows, what it lets the user do, and the limit that it keeps.
use vstd::prelude::*;

use crate::text;
use crate::text::{parse_number, push_decimal, trim};

verus! {

/// The frame rate that the short interval stands for. It is the limit until another is set.
pub const MAX: u32 = 1000;

/// The title of the item that switches a run on and off.
pub const UNLOCK_TITLE: &'static str = "Unlock FPS";

/// The title of the item that signs the player anew.
pub const RESIGN_TITLE: &'static str = "Resign Roblox";

/// The title of the item that ends the program.
pub const QUIT_TITLE: &'static str = "Quit";

/// The key of the item that ends the program.
pub const QUIT_KEY: &'static str = "q";

/// The limit, or one where it is zero.
pub open spec fn at_least_one(fps: u32) -> u32 {
    if fps < 1 {
        1
    } else {
        fps
    }
}

/// The limit that a text stands for. White space around it does not matter.
pub open spec fn limit_in(s: Seq<char>) -> Option<u32> {
    match text::number(text::trimmed(s)) {
        Some(fps) => Some(at_least_one(fps)),
        None => None,
    }
}

/// The title of the item that sets the limit.
pub open spec fn label_of(fps: u32) -> Seq<char> {
    "FPS Limit: "@ + text::decimal(fps as nat)
}

/// The title of the item that sets the limit.
pub fn label(fps: u32) -> (title: String)
    ensures
        title@ == label_of(fps),
{
    let mut title = String::new();
    title.append("FPS Limit: ");
    push_decimal(&mut title, fps as u64);
    assert(title@ =~= label_of(fps));
    title
}

/// The limit as it is kept in the settings, and as it is offered for change.
pub fn limit_text(limit: u32) -> (s: String)
    ensures
        s@ == text::decimal(limit as nat),
{
    let mut s = String::new();
    push_decimal(&mut s, limit as u64);
    assert(s@ =~= text::decimal(limit as nat));
    s
}

/// The limit that the user has typed; nothing where it is no number.
pub fn ask(typed: &str) -> (limit: Option<u32>)
    ensures
        limit == limit_in(typed@),
{
    match parse_number(trim(typed)) {
        Some(fps) => if fps < 1 {
            Some(1)
        } else {
            Some(fps)
        },
        None => None,
    }
}

/// The limit that settings with this text hold; the largest one where they cannot be read or hold
/// none.
pub open spec fn limit_loaded(settings: Option<Seq<char>>) -> u32 {
    match settings {
        Some(s) => match limit_in(s) {
            Some(limit) => limit,
            None => MAX,
        },
        None => MAX,
    }
}

/// The limit that the settings hold; the largest one where they cannot be read or hold none.
pub fn load(settings: Option<&str>) -> (limit: u32)
    ensures
        limit == match settings {
            Some(s) => match limit_in(s@) {
                Some(limit) => limit,
                None => MAX,
            },
            None => MAX,
        },
        settings matches Some(s) ==> limit == limit_loaded(Some(s@)),
        settings is None ==> limit == limit_loaded(None),
{
    match settings {
        Some(s) => match ask(s) {
            Some(limit) => limit,
            None => MAX,
        },
        None => MAX,
    }
}

/// What the menu shows.
#[derive(Clone, Copy, Debug, PartialEq, Eq, Structural)]
pub struct Menu {
    /// The item that switches a run on and off can be chosen.
    pub unlock_enabled: bool,
    /// It has a check mark.
    pub unlock_checked: bool,
    /// The item that signs the player anew can be chosen.
    pub resign_enabled: bool,
    /// The icon is that of a locked display.
    pub locked: bool,
}

/// What is known of the player.
#[derive(Clone, Copy, Debug, PartialEq, Eq, Structural)]
pub struct Player {
    /// A process of it that can be attached to.
    pub ready: Option<i32>,
    /// It is signed so that it can be attached to.
    pub signed: bool,
}

/// What the menu shows at first.
pub open spec fn first_menu() -> Menu {
    Menu { unlock_enabled: false, unlock_checked: false, resign_enabled: true, locked: true }
}

/// What the menu shows, given whether a run is on and what is known of the player.
pub open spec fn menu_of(on: bool, player: Player) -> Menu {
    Menu {
        unlock_enabled: on || player.ready is Some,
        unlock_checked: on,
        resign_enabled: !on && !player.signed,
        locked: !on,
    }
}

/// What choosing an item does.
#[derive(Clone, Copy, Debug, PartialEq, Eq, Structural)]
pub enum Action {
    /// Asks for another limit.
    SetLimit,
    /// Switches a run on or off.
    Toggle,
    /// Signs the player anew.
    Resign,
    /// Ends the program.
    Quit,
}

/// An entry of the menu.
pub enum Entry {
    /// An item that can be chosen, also by its key where that is not empty.
    Item { action: Action, title: String, key: &'static str },
    /// A line between items.
    Separator,
}

/// An entry as a mathematical value.
pub enum EntryView {
    Item { action: Action, title: Seq<char>, key: Seq<char> },
    Separator,
}

impl View for Entry {
    type V = EntryView;

    open spec fn view(&self) -> EntryView {
        match *self {
            Entry::Item { action, title, key } => EntryView::Item {
                action,
                title: title@,
                key: key@,
            },
            Entry::Separator => EntryView::Separator,
        }
    }
}

/// The entries as mathematical values.
pub open spec fn seen(entries: Seq<Entry>) -> Seq<EntryView> {
    Seq::new(entries.len(), |i: int| entries[i]@)
}

/// An item without a key.
pub open spec fn plain_item(action: Action, title: Seq<char>) -> EntryView {
    EntryView::Item { action, title, key: ""@ }
}

/// What the menu holds, from top to bottom.
pub open spec fn entries_of(limit: u32) -> Seq<EntryView> {
    seq![
        plain_item(Action::SetLimit, label_of(limit)),
        EntryView::Separator,
        plain_item(Action::Toggle, UNLOCK_TITLE@),
        plain_item(Action::Resign, RESIGN_TITLE@),
        EntryView::Separator,
        EntryView::Item { action: Action::Quit, title: QUIT_TITLE@, key: QUIT_KEY@ },
    ]
}

/// An item with this title.
fn item(action: Action, title: &str, key: &'static str) -> (entry: Entry)
    ensures
        entry@ == (EntryView::Item { action, title: title@, key: key@ }),
{
    let mut copy = String::new();
    copy.append(title);
    assert(copy@ =~= title@);
    Entry::Item { action, title: copy, key }
}

/// What the menu holds, from top to bottom.
pub fn entries(limit: u32) -> (entries: Vec<Entry>)
    ensures
        seen(entries@) == entries_of(limit),
{
    let mut entries: Vec<Entry> = Vec::new();
    entries.push(Entry::Item { action: Action::SetLimit, title: label(limit), key: "" });
    entries.push(Entry::Separator);
    entries.push(item(Action::Toggle, UNLOCK_TITLE, ""));
    entries.push(item(Action::Resign, RESIGN_TITLE, ""));
    entries.push(Entry::Separator);
    entries.push(item(Action::Quit, QUIT_TITLE, QUIT_KEY));
    assert(seen(entries@) =~= entries_of(limit));
    entries
}

impl Menu {
    /// What the menu shows at first.
    pub fn tray() -> (menu: Menu)
        ensures
            menu == first_menu(),
    {
        Menu { unlock_enabled: false, unlock_checked: false, resign_enabled: true, locked: true }
    }

    /// What the menu shows. A run, if there is one, may have stopped by itself; it counts as
    /// none then and is to be dropped.
    pub fn sync(run: Option<bool>, player: Player) -> (shown: (bool, Menu))
        ensures
            shown.0 == (run == Some(true)),
            shown.1 == menu_of(shown.0, player),
    {
        let on = match run {
            Some(on) => on,
            None => false,
        };
        let ready = player.ready.is_some();
        (
            on,
            Menu {
                unlock_enabled: on || ready,
                unlock_checked: on,
                resign_enabled: !on && !player.signed,
                locked: !on,
            },
        )
    }
}

/// What the item that switches a run on and off does.
#[derive(Clone, Copy, Debug, PartialEq, Eq, Structural)]
pub enum Toggle {
    /// Stops the run.
    Stop,
    /// Starts a run on this process.
    Start(i32),
    /// Nothing.
    Nothing,
}

/// What the item does, given whether there is a run, and a process that can be attached to.
pub open spec fn toggle_of(has_run: bool, ready: Option<i32>) -> Toggle {
    if has_run {
        Toggle::Stop
    } else {
        match ready {
            Some(pid) => Toggle::Start(pid),
            None => Toggle::Nothing,
        }
    }
}

/// What the item does, given whether there is a run, and a process that can be attached to.
pub fn toggle(has_run: bool, ready: Option<i32>) -> (action: Toggle)
    ensures
        action == toggle_of(has_run, ready),
{
    if has_run {
        return Toggle::Stop;
    }
    match ready {
        Some(pid) => Toggle::Start(pid),
        None => Toggle::Nothing,
    }
}

/// The name of the icon.
pub open spec fn icon_name(locked: bool) -> Seq<char> {
    if locked {
        "lock.display"@
    } else {
        "lock.open.display"@
    }
}

/// The name of the icon.
pub fn icon(locked: bool) -> (name: &'static str)
    ensures
        name@ == icon_name(locked),
{
    if locked {
        "lock.display"
    } else {
        "lock.open.display"
    }
}

/// A limit that is kept is the one that is loaded again, but for zero, which becomes one.
pub proof fn limits_are_kept(limit: u32)
    ensures
        limit_in(text::decimal(limit as nat)) == Some(at_least_one(limit)),
{
    text::numbers_read_back(limit);
}

/// While a run is on, it can be switched off and the player cannot be signed.
pub proof fn a_run_can_be_stopped(player: Player)
    ensures
        menu_of(true, player).unlock_enabled,
        menu_of(true, player).unlock_checked,
        !menu_of(true, player).resign_enabled,
        !menu_of(true, player).locked,
{
}

/// Signing is greyed out whenever the player is signed already. With no run on, it is greyed out
/// then only.
pub proof fn signing_is_greyed_out_when_signed(on: bool, player: Player)
    ensures
        player.signed ==> !menu_of(on, player).resign_enabled,
        menu_of(false, player).resign_enabled == !player.signed,
{
}

/// With a player that can be attached to or is not signed, the user can do something: unlock,
/// or sign.
pub proof fn there_is_something_to_do(on: bool, player: Player)
    requires
        player.ready is Some || !player.signed,
    ensures
        menu_of(on, player).unlock_enabled || menu_of(on, player).resign_enabled,
{
}

/// The item that switches a run on and off can be chosen exactly when it does something, and
/// has a check mark exactly when it stops a run.
pub proof fn enabled_items_act(on: bool, player: Player)
    ensures
        menu_of(on, player).unlock_enabled <==> toggle_of(on, player.ready) != Toggle::Nothing,
        menu_of(on, player).unlock_checked <==> toggle_of(on, player.ready) == Toggle::Stop,
{
}

/// A text with any white space around a number, with a plus sign or without, sets that number as
/// the limit, or one where it is zero; and only such a text sets a limit.
pub proof fn limits_are_numbers(s: Seq<char>, limit: u32)
    ensures
        limit_in(s) == Some(limit) <==> limit >= 1 && (text::number(text::trimmed(s)) == Some(limit)
            || (text::number(text::trimmed(s)) == Some(0u32) && limit == 1)),
{
}

/// The title shows the limit in decimal notation.
pub proof fn the_title_shows_the_limit(fps: u32)
    ensures
        label_of(fps) == "FPS Limit: "@ + text::digits(fps as nat, 10),
{
}

/// With no run on, the menu offers to unlock exactly where a process can be attached to, has no
/// check mark and shows the lock.
pub proof fn without_a_run_the_display_is_locked(player: Player)
    ensures
        menu_of(false, player).unlock_enabled <==> player.ready != None::<i32>,
        !menu_of(false, player).unlock_checked,
        menu_of(false, player).locked,
{
}

/// The item starts a run on the process that can be attached to, whichever that is, unless there
/// is a run; that it stops.
pub proof fn the_item_starts_on_the_ready_process(pid: i32, ready: Option<i32>)
    ensures
        toggle_of(true, ready) == Toggle::Stop,
        toggle_of(false, Some(pid)) == Toggle::Start(pid),
        toggle_of(false, None) == Toggle::Nothing,
{
}

/// A limit above zero that is kept is loaded again as it was, with any white space around it.
/// Where there are no settings, or what they hold is no number, the limit is a thousand.
pub proof fn limits_are_loaded_as_they_were_kept(
    limit: u32,
    a: Seq<char>,
    b: Seq<char>,
    s: Seq<char>,
)
    requires
        limit >= 1,
        text::blank(a),
        text::blank(b),
    ensures
        limit_loaded(Some(a + text::digits(limit as nat, 10) + b)) == limit,
        limit_loaded(None) == 1000,
        text::number(text::trimmed(s)) is None ==> limit_loaded(Some(s)) == 1000,
{
    let core = text::digits(limit as nat, 10);
    text::notations_stand_for_their_numbers(limit as nat, 10);
    assert(text::is_digit_of(core[0], 10));
    assert(text::is_digit_of(core[core.len() - 1], 10));
    text::trimming_takes_the_white_space_around(a, core, b);
    text::trimming_takes_the_white_space_around(Seq::empty(), core, Seq::empty());
    assert(Seq::<char>::empty() + core + Seq::<char>::empty() =~= core);
    limits_are_kept(limit);
}

/// The menu holds the limit, a line, the item that unlocks, the one that signs, a line, and the one
/// that ends the program, which alone has a key.
pub proof fn the_menu_holds_these(limit: u32)
    ensures
        entries_of(limit).len() == 6,
        entries_of(limit)[0] == (EntryView::Item {
            action: Action::SetLimit,
            title: "FPS Limit: "@ + text::digits(limit as nat, 10),
            key: ""@,
        }),
        entries_of(limit)[1] == EntryView::Separator,
        entries_of(limit)[2] == (EntryView::Item {
            action: Action::Toggle,
            title: "Unlock FPS"@,
            key: ""@,
        }),
        entries_of(limit)[3] == (EntryView::Item {
            action: Action::Resign,
            title: "Resign Roblox"@,
            key: ""@,
        }),
        entries_of(limit)[4] == EntryView::Separator,
        entries_of(limit)[5] == (EntryView::Item {
            action: Action::Quit,
            title: "Quit"@,
            key: "q"@,
        }),
{
}

/// At first the menu shows what it shows without a run and without a player, which can be signed.
/// The icon is the closed lock where the display is locked, and else the open one.
pub proof fn the_menu_begins_without_a_player(locked: bool)
    ensures
        first_menu() == menu_of(false, Player { ready: None, signed: false }),
        icon_name(true) == "lock.display"@,
        icon_name(false) == "lock.open.display"@,
{
}

} // verus!
