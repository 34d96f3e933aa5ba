//! The context menu: which entries it shows, and which of them is selected.

use vstd::prelude::*;

verus! {

/// Where the menu is opened; this decides its entries.
#[derive(Debug, Clone, Copy)]
pub enum MenuContext {
    MainMenu { has_save: bool },
    Playing,
    GameOver,
    WhatIf,
}

/// What an entry of the menu does.
#[derive(Debug, Clone, Copy, PartialEq, Eq, Structural)]
pub enum MenuItem {
    Help,
    NewGame,
    Resume,
    Statistics,
    Settings,
    MoveHistory,
    Hint,
    Undo,
    Resign,
    SaveAndExit,
    WhatIf,
    ExitWhatIf,
    MainMenu,
}

impl MenuItem {
    /// The text shown for the entry.
    pub open spec fn text(self) -> Seq<char> {
        match self {
            MenuItem::Help => "Help"@,
            MenuItem::NewGame => "New Game"@,
            MenuItem::Resume => "Resume Game"@,
            MenuItem::Statistics => "Statistics"@,
            MenuItem::Settings => "Settings"@,
            MenuItem::MoveHistory => "Move History"@,
            MenuItem::Hint => "Hint"@,
            MenuItem::Undo => "Undo"@,
            MenuItem::Resign => "Resign"@,
            MenuItem::SaveAndExit => "Save & Exit"@,
            MenuItem::WhatIf => "What If"@,
            MenuItem::ExitWhatIf => "Exit What If"@,
            MenuItem::MainMenu => "Main Menu"@,
        }
    }

    /// The text shown for the entry.
    pub fn label(&self) -> (r: &'static str)
        ensures
            r@ == self.text(),
    {
        match self {
            MenuItem::Help => "Help",
            MenuItem::NewGame => "New Game",
            MenuItem::Resume => "Resume Game",
            MenuItem::Statistics => "Statistics",
            MenuItem::Settings => "Settings",
            MenuItem::MoveHistory => "Move History",
            MenuItem::Hint => "Hint",
            MenuItem::Undo => "Undo",
            MenuItem::Resign => "Resign",
            MenuItem::SaveAndExit => "Save & Exit",
            MenuItem::WhatIf => "What If",
            MenuItem::ExitWhatIf => "Exit What If",
            MenuItem::MainMenu => "Main Menu",
        }
    }
}

/// The entries that the menu shows in `context`, from the top.
pub open spec fn entries_for(context: MenuContext) -> Seq<MenuItem> {
    match context {
        MenuContext::MainMenu { has_save } => if has_save {
            seq![
                MenuItem::Help,
                MenuItem::NewGame,
                MenuItem::Resume,
                MenuItem::Statistics,
                MenuItem::Settings,
            ]
        } else {
            seq![MenuItem::Help, MenuItem::NewGame, MenuItem::Statistics, MenuItem::Settings]
        },
        MenuContext::Playing => seq![
            MenuItem::Help,
            MenuItem::MoveHistory,
            MenuItem::Hint,
            MenuItem::Undo,
            MenuItem::Resign,
            MenuItem::SaveAndExit,
            MenuItem::NewGame,
        ],
        MenuContext::GameOver => seq![
            MenuItem::Help,
            MenuItem::WhatIf,
            MenuItem::MoveHistory,
            MenuItem::NewGame,
            MenuItem::MainMenu,
        ],
        MenuContext::WhatIf => seq![MenuItem::Help, MenuItem::ExitWhatIf],
    }
}

/// The menu.
pub struct Menu {
    /// Whether the menu is shown.
    pub visible: bool,
    /// The place of the selected entry.
    pub selected: usize,
    /// The entries, from the top.
    pub items: Vec<MenuItem>,
}

impl Menu {
    /// A hidden menu without entries.
    pub fn new() -> (r: Self)
        ensures
            !r.visible,
            r.selected == 0,
            r.items@ == Seq::<MenuItem>::empty(),
    {
        Self { visible: false, selected: 0, items: Vec::new() }
    }

    /// Shows the menu with the entries of `context`, the first one selected.
    pub fn open(&mut self, context: MenuContext)
        ensures
            final(self).items@ == entries_for(context),
            final(self).selected == 0,
            final(self).visible,
    {
        let items = match context {
            MenuContext::MainMenu { has_save } => {
                let mut items = vec![MenuItem::Help, MenuItem::NewGame];
                if has_save {
                    items.push(MenuItem::Resume);
                }
                items.push(MenuItem::Statistics);
                items.push(MenuItem::Settings);
                items
            },
            MenuContext::Playing => {
                vec![
                    MenuItem::Help,
                    MenuItem::MoveHistory,
                    MenuItem::Hint,
                    MenuItem::Undo,
                    MenuItem::Resign,
                    MenuItem::SaveAndExit,
                    MenuItem::NewGame,
                ]
            },
            MenuContext::GameOver => {
                vec![
                    MenuItem::Help,
                    MenuItem::WhatIf,
                    MenuItem::MoveHistory,
                    MenuItem::NewGame,
                    MenuItem::MainMenu,
                ]
            },
            MenuContext::WhatIf => {
                vec![MenuItem::Help, MenuItem::ExitWhatIf]
            },
        };
        assert(items@ =~= entries_for(context));
        self.items = items;
        self.selected = 0;
        self.visible = true;
    }

    /// Hides the menu; entries and selection stay.
    pub fn close(&mut self)
        ensures
            !final(self).visible,
            final(self).selected == old(self).selected,
            final(self).items@ == old(self).items@,
    {
        self.visible = false;
    }

    /// Selects the entry above, if there is one.
    pub fn up(&mut self)
        ensures
            final(self).selected == (if old(self).selected > 0 {
                (old(self).selected - 1) as usize
            } else {
                0
            }),
            final(self).visible == old(self).visible,
            final(self).items@ == old(self).items@,
    {
        if self.selected > 0 {
            self.selected -= 1;
        }
    }

    /// Selects the entry below, if there is one.
    pub fn down(&mut self)
        ensures
            final(self).selected == (if old(self).selected + 1 < old(self).items@.len() {
                (old(self).selected + 1) as usize
            } else {
                old(self).selected
            }),
            final(self).visible == old(self).visible,
            final(self).items@ == old(self).items@,
    {
        let n = self.items.len();
        if n > 0 && self.selected < n - 1 {
            self.selected += 1;
        }
    }

    /// The selected entry, if the selection is one of the entries.
    pub fn select(&self) -> (r: Option<MenuItem>)
        ensures
            r == (if self.selected < self.items@.len() {
                Some(self.items@[self.selected as int])
            } else {
                None
            }),
    {
        if self.selected < self.items.len() {
            Some(self.items[self.selected])
        } else {
            None
        }
    }
}

impl Default for Menu {
    fn default() -> (r: Self)
        ensures
            !r.visible,
            r.selected == 0,
            r.items@ == Seq::<MenuItem>::empty(),
    {
        Self::new()
    }
}

} // verus!
