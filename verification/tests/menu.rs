use othello_core::help::HelpContext;
use othello_core::menu::{Menu, MenuContext, MenuItem};

#[test]
fn a_new_menu_is_hidden_and_empty() {
    let menu = Menu::new();
    assert!(!menu.visible);
    assert_eq!(menu.selected, 0);
    assert!(menu.items.is_empty());
    assert_eq!(menu.select(), None);
    let menu = Menu::default();
    assert!(!menu.visible);
    assert!(menu.items.is_empty());
}

#[test]
fn the_main_menu_offers_resume_only_with_a_saved_game() {
    let mut menu = Menu::new();
    menu.open(MenuContext::MainMenu { has_save: false });
    assert!(menu.visible);
    assert_eq!(menu.selected, 0);
    assert_eq!(
        menu.items,
        vec![MenuItem::Help, MenuItem::NewGame, MenuItem::Statistics, MenuItem::Settings]
    );
    menu.open(MenuContext::MainMenu { has_save: true });
    assert_eq!(
        menu.items,
        vec![
            MenuItem::Help,
            MenuItem::NewGame,
            MenuItem::Resume,
            MenuItem::Statistics,
            MenuItem::Settings
        ]
    );
}

#[test]
fn each_context_has_its_entries() {
    let mut menu = Menu::new();
    menu.open(MenuContext::Playing);
    assert_eq!(
        menu.items,
        vec![
            MenuItem::Help,
            MenuItem::MoveHistory,
            MenuItem::Hint,
            MenuItem::Undo,
            MenuItem::Resign,
            MenuItem::SaveAndExit,
            MenuItem::NewGame
        ]
    );
    menu.open(MenuContext::GameOver);
    assert_eq!(
        menu.items,
        vec![
            MenuItem::Help,
            MenuItem::WhatIf,
            MenuItem::MoveHistory,
            MenuItem::NewGame,
            MenuItem::MainMenu
        ]
    );
    menu.open(MenuContext::WhatIf);
    assert_eq!(menu.items, vec![MenuItem::Help, MenuItem::ExitWhatIf]);
}

#[test]
fn the_selection_stays_within_the_entries() {
    let mut menu = Menu::new();
    menu.open(MenuContext::WhatIf);
    assert_eq!(menu.select(), Some(MenuItem::Help));
    menu.up();
    assert_eq!(menu.selected, 0);
    menu.down();
    assert_eq!(menu.selected, 1);
    assert_eq!(menu.select(), Some(MenuItem::ExitWhatIf));
    menu.down();
    assert_eq!(menu.selected, 1);
    menu.up();
    assert_eq!(menu.selected, 0);
    menu.close();
    assert!(!menu.visible);
    assert_eq!(menu.items.len(), 2);

    let mut empty = Menu::new();
    empty.down();
    assert_eq!(empty.selected, 0);
    empty.up();
    assert_eq!(empty.selected, 0);
}

#[test]
fn opening_again_selects_the_first_entry() {
    let mut menu = Menu::new();
    menu.open(MenuContext::Playing);
    menu.down();
    menu.down();
    assert_eq!(menu.select(), Some(MenuItem::Hint));
    menu.open(MenuContext::GameOver);
    assert_eq!(menu.selected, 0);
    assert_eq!(menu.select(), Some(MenuItem::Help));
}

#[test]
fn every_entry_has_its_label() {
    assert_eq!(MenuItem::Help.label(), "Help");
    assert_eq!(MenuItem::NewGame.label(), "New Game");
    assert_eq!(MenuItem::Resume.label(), "Resume Game");
    assert_eq!(MenuItem::Statistics.label(), "Statistics");
    assert_eq!(MenuItem::Settings.label(), "Settings");
    assert_eq!(MenuItem::MoveHistory.label(), "Move History");
    assert_eq!(MenuItem::Hint.label(), "Hint");
    assert_eq!(MenuItem::Undo.label(), "Undo");
    assert_eq!(MenuItem::Resign.label(), "Resign");
    assert_eq!(MenuItem::SaveAndExit.label(), "Save & Exit");
    assert_eq!(MenuItem::WhatIf.label(), "What If");
    assert_eq!(MenuItem::ExitWhatIf.label(), "Exit What If");
    assert_eq!(MenuItem::MainMenu.label(), "Main Menu");
}

#[test]
fn every_help_page_has_its_heading() {
    assert_eq!(HelpContext::MainMenu.title(), "OTHELLO v1.0");
    assert_eq!(HelpContext::Playing.title(), "OTHELLO - Playing");
    assert_eq!(HelpContext::WhatIf.title(), "OTHELLO - What If");
}
