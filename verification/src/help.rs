//! The key-binding help table, derived from the interaction mode.

use vstd::prelude::*;

use crate::session::InputState;

verus! {

/// One help line: the key and what it does.
#[derive(Copy, Clone, Eq, PartialEq, Debug)]
pub struct Keybinding {
    pub key: &'static str,
    pub text: &'static str,
}

/// The key and text views of every help line shown in a mode, in order.
pub open spec fn keybindings_spec(state: InputState) -> Seq<(Seq<char>, Seq<char>)> {
    match state {
        InputState::SelectSource => seq![
            ("[0-9]"@, "Select a row to move cards from"@),
            ("[Enter]"@, "Deal row of cards"@),
            ("[u]"@, "Undo"@),
            ("[c]"@, "Quit"@),
            ("[q]"@, "Quit"@),
            ("[C]"@, "Cheats"@),
            ("[R]"@, "Restart"@),
        ],
        InputState::SelectDestination(_) => seq![
            ("[0-9]"@, "Select a row to move cards to"@),
            ("[0-9]"@, "Select a cheat to apply"@),
            ("[Enter]"@, "Deal row of cards"@),
            ("[u]"@, "Undo"@),
            ("[c]"@, "Quit"@),
            ("[q]"@, "Quit"@),
            ("[C]"@, "Cheats"@),
            ("[R]"@, "Restart"@),
        ],
        InputState::CheatMenu => seq![
            ("[0-9]"@, "Select a cheat"@),
            ("[q]"@, "Exit menu"@),
            ("[esc]"@, "Exit menu"@),
        ],
    }
}

/// The help lines to show for one interaction mode.
pub fn get_keybindings(state: InputState) -> (r: Vec<Keybinding>)
    ensures
        r@.len() == keybindings_spec(state).len(),
        forall|i: int|
            0 <= i < r@.len() ==> ((#[trigger] r@[i]).key@, r@[i].text@) == keybindings_spec(
                state,
            )[i],
{
    let mut r: Vec<Keybinding> = Vec::new();
    match state {
        InputState::SelectSource => {
            r.push(Keybinding { key: "[0-9]", text: "Select a row to move cards from" });
            r.push(Keybinding { key: "[Enter]", text: "Deal row of cards" });
            r.push(Keybinding { key: "[u]", text: "Undo" });
            r.push(Keybinding { key: "[c]", text: "Quit" });
            r.push(Keybinding { key: "[q]", text: "Quit" });
            r.push(Keybinding { key: "[C]", text: "Cheats" });
            r.push(Keybinding { key: "[R]", text: "Restart" });
        },
        InputState::SelectDestination(_) => {
            r.push(Keybinding { key: "[0-9]", text: "Select a row to move cards to" });
            r.push(Keybinding { key: "[0-9]", text: "Select a cheat to apply" });
            r.push(Keybinding { key: "[Enter]", text: "Deal row of cards" });
            r.push(Keybinding { key: "[u]", text: "Undo" });
            r.push(Keybinding { key: "[c]", text: "Quit" });
            r.push(Keybinding { key: "[q]", text: "Quit" });
            r.push(Keybinding { key: "[C]", text: "Cheats" });
            r.push(Keybinding { key: "[R]", text: "Restart" });
        },
        InputState::CheatMenu => {
            r.push(Keybinding { key: "[0-9]", text: "Select a cheat" });
            r.push(Keybinding { key: "[q]", text: "Exit menu" });
            r.push(Keybinding { key: "[esc]", text: "Exit menu" });
        },
    }
    r
}

} // verus!
