//! The help pages.

use vstd::prelude::*;

verus! {

/// Where help is asked for; this decides the page.
#[derive(Debug, Clone, Copy, PartialEq, Eq, Structural)]
pub enum HelpContext {
    MainMenu,
    Playing,
    WhatIf,
}

impl HelpContext {
    /// The heading of the page.
    pub open spec fn heading(self) -> Seq<char> {
        match self {
            HelpContext::MainMenu => "OTHELLO v1.0"@,
            HelpContext::Playing => "OTHELLO - Playing"@,
            HelpContext::WhatIf => "OTHELLO - What If"@,
        }
    }

    /// The heading of the page.
    pub fn title(&self) -> (r: &'static str)
        ensures
            r@ == self.heading(),
    {
        match self {
            HelpContext::MainMenu => "OTHELLO v1.0",
            HelpContext::Playing => "OTHELLO - Playing",
            HelpContext::WhatIf => "OTHELLO - What If",
        }
    }
}

} // verus!
