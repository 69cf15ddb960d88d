use fps_unlocker::menu::{
    ask, entries, icon, label, limit_text, load, toggle, Action, Entry, Menu, Player, Toggle, MAX,
};

fn player(ready: Option<i32>, signed: bool) -> Player {
    Player { ready, signed }
}

#[test]
fn the_label_shows_the_limit() {
    assert_eq!(label(60), "FPS Limit: 60");
    assert_eq!(label(0), "FPS Limit: 0");
    assert_eq!(label(5000), "FPS Limit: 5000");
    assert_eq!(label(u32::MAX), "FPS Limit: 4294967295");
}

#[test]
fn the_limit_is_loaded_from_the_settings() {
    assert_eq!(load(Some("144")), 144);
    assert_eq!(load(Some(" 240\n")), 240);
    assert_eq!(load(Some("+75")), 75);
    assert_eq!(load(Some("0007")), 7);
    assert_eq!(load(Some("0")), 1);
    assert_eq!(load(Some("4294967295")), u32::MAX);
}

#[test]
fn the_largest_limit_stands_in_for_missing_settings() {
    assert_eq!(MAX, 1000);
    assert_eq!(load(None), MAX);
    assert_eq!(load(Some("")), MAX);
    assert_eq!(load(Some("fast")), MAX);
    assert_eq!(load(Some("-5")), MAX);
    assert_eq!(load(Some("+")), MAX);
    assert_eq!(load(Some("++5")), MAX);
    assert_eq!(load(Some("6 0")), MAX);
    assert_eq!(load(Some("60.0")), MAX);
    assert_eq!(load(Some("4294967296")), MAX);
    assert_eq!(load(Some("99999999999999999999999999")), MAX);
}

#[test]
fn typed_limits_are_numbers_of_at_least_one() {
    assert_eq!(ask("5000"), Some(5000));
    assert_eq!(ask("\u{3000}60\u{85}"), Some(60));
    assert_eq!(ask("0"), Some(1));
    assert_eq!(ask("sixty"), None);
    assert_eq!(ask("   "), None);
    assert_eq!(ask("\u{661}"), None);
}

#[test]
fn a_kept_limit_is_loaded_again() {
    for limit in [1, 9, 10, 60, 144, 1000, 5000, u32::MAX] {
        assert_eq!(load(Some(&limit_text(limit))), limit);
        assert_eq!(limit_text(limit), limit.to_string());
    }
    assert_eq!(load(Some(&limit_text(0))), 1);
}

#[test]
fn trimming_and_parsing_agree_with_std() {
    for s in ["12", " 12", "12\t\r\n", "\u{a0}12\u{2003}", "1 2", "+12", "-12", "", "4294967296", "x"] {
        assert_eq!(ask(s), s.trim().parse::<u32>().ok().map(|fps| fps.max(1)), "{s:?}");
    }
}

#[test]
fn the_first_menu_offers_to_sign() {
    let menu = Menu::tray();
    assert!(!menu.unlock_enabled);
    assert!(!menu.unlock_checked);
    assert!(menu.resign_enabled);
    assert!(menu.locked);
}

#[test]
fn a_run_that_is_on_can_only_be_switched_off() {
    for ready in [None, Some(7)] {
        for signed in [false, true] {
            let (on, menu) = Menu::sync(Some(true), player(ready, signed));
            assert!(on);
            assert_eq!(
                menu,
                Menu {
                    unlock_enabled: true,
                    unlock_checked: true,
                    resign_enabled: false,
                    locked: false,
                }
            );
        }
    }
}

#[test]
fn a_run_that_is_off_counts_as_none() {
    for run in [None, Some(false)] {
        let (on, menu) = Menu::sync(run, player(Some(7), true));
        assert!(!on);
        assert_eq!(
            menu,
            Menu { unlock_enabled: true, unlock_checked: false, resign_enabled: false, locked: true }
        );
    }
}

#[test]
fn signing_is_offered_for_a_player_that_is_not_signed() {
    for run in [None, Some(false)] {
        assert!(Menu::sync(run, player(None, false)).1.resign_enabled);
        assert!(Menu::sync(run, player(Some(7), false)).1.resign_enabled);
    }
}

#[test]
fn signing_is_greyed_out_for_a_signed_player() {
    for run in [None, Some(false), Some(true)] {
        assert!(!Menu::sync(run, player(None, true)).1.resign_enabled);
        assert!(!Menu::sync(run, player(Some(7), true)).1.resign_enabled);
    }
}

#[test]
fn choosing_the_item_stops_or_starts() {
    assert_eq!(toggle(true, None), Toggle::Stop);
    assert_eq!(toggle(true, Some(7)), Toggle::Stop);
    assert_eq!(toggle(false, Some(7)), Toggle::Start(7));
    assert_eq!(toggle(false, None), Toggle::Nothing);
}

#[test]
fn the_icon_shows_the_lock() {
    assert_eq!(icon(true), "lock.display");
    assert_eq!(icon(false), "lock.open.display");
}

#[test]
fn the_menu_holds_its_entries_in_order() {
    let shown: Vec<Option<(Action, String, &str)>> = entries(144)
        .into_iter()
        .map(|entry| match entry {
            Entry::Item { action, title, key } => Some((action, title, key)),
            Entry::Separator => None,
        })
        .collect();
    assert_eq!(
        shown,
        vec![
            Some((Action::SetLimit, "FPS Limit: 144".to_owned(), "")),
            None,
            Some((Action::Toggle, "Unlock FPS".to_owned(), "")),
            Some((Action::Resign, "Resign Roblox".to_owned(), "")),
            None,
            Some((Action::Quit, "Quit".to_owned(), "q")),
        ]
    );
}
