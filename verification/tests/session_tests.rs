use spider_engine::action::GameState;
use spider_engine::cards::{Card, Suit};
use spider_engine::help::get_keybindings;
use spider_engine::session::{session_step, Input, InputState, StateWithUndoHistory};

fn card(suit: Suit, rank: u8, up: bool) -> Card {
    Card { suit, rank, is_facing_up: up }
}

fn empty_stacks() -> Vec<Vec<Card>> {
    let mut v = Vec::new();
    for _ in 0..10 {
        v.push(Vec::new());
    }
    v
}

#[test]
fn deal_is_refused_below_ten_stock_cards() {
    // The driver never constructs a deal when the stock is short.
    let mut stacks = empty_stacks();
    for s in stacks.iter_mut() {
        s.push(card(Suit::Clubs, 4, true));
    }
    let mut deck = Vec::new();
    for i in 0..9 {
        deck.push(card(Suit::Hearts, i as u8, false));
    }
    let g = GameState::new(stacks, deck, Vec::new());
    let before = g.duplicate();
    let mut session = StateWithUndoHistory { state: g, undo_stack: Vec::new() };
    let res = session_step(&mut session, InputState::SelectSource, Input::Deal);
    assert!(!res.changed);
    assert!(!res.save);
    assert!(session.state.same_as(&before));
    assert_eq!(session.undo_stack.len(), 0);
}

#[test]
fn deal_applies_with_ten_stock_cards() {
    let mut stacks = empty_stacks();
    for s in stacks.iter_mut() {
        s.push(card(Suit::Clubs, 4, true));
    }
    let mut deck = Vec::new();
    for i in 0..10 {
        deck.push(card(Suit::Hearts, i as u8, false));
    }
    let g = GameState::new(stacks, deck, Vec::new());
    let mut session = StateWithUndoHistory { state: g, undo_stack: Vec::new() };
    let res = session_step(&mut session, InputState::SelectSource, Input::Deal);
    assert!(res.changed);
    assert!(res.save);
    assert_eq!(session.state.deck.len(), 0);
    for st in &session.state.stacks {
        assert_eq!(st.len(), 2);
        assert!(st.last().unwrap().is_facing_up);
    }
    assert_eq!(session.undo_stack.len(), 1);
}

#[test]
fn mode_transitions() {
    let g = GameState::new(empty_stacks(), Vec::new(), Vec::new());
    let mut session = StateWithUndoHistory { state: g, undo_stack: Vec::new() };

    let res = session_step(&mut session, InputState::SelectSource, Input::Row(3));
    assert_eq!(res.next_mode, InputState::SelectDestination(3));
    assert!(res.changed);

    let res = session_step(&mut session, InputState::SelectSource, Input::ShowCheatMenu);
    assert_eq!(res.next_mode, InputState::CheatMenu);

    let res = session_step(&mut session, InputState::CheatMenu, Input::ExitMenu);
    assert_eq!(res.next_mode, InputState::SelectSource);

    let res = session_step(&mut session, InputState::SelectSource, Input::Quit);
    assert!(res.quit);
    assert!(!res.restart);

    let res = session_step(&mut session, InputState::SelectSource, Input::Restart);
    assert!(res.restart);
    assert!(!res.quit);
}

#[test]
fn move_through_the_driver() {
    let mut stacks = empty_stacks();
    stacks[2] = vec![card(Suit::Clubs, 7, true)];
    stacks[5] = vec![card(Suit::Clubs, 8, true)];
    let g = GameState::new(stacks, Vec::new(), Vec::new());
    let mut session = StateWithUndoHistory { state: g, undo_stack: Vec::new() };
    let res = session_step(&mut session, InputState::SelectSource, Input::Row(2));
    let res = session_step(&mut session, res.next_mode, Input::Row(5));
    assert_eq!(res.next_mode, InputState::SelectSource);
    assert!(res.save);
    assert_eq!(session.state.stacks[2].len(), 0);
    assert_eq!(session.state.stacks[5].len(), 2);
    let res = session_step(&mut session, res.next_mode, Input::Undo);
    assert!(res.save && res.changed);
    assert_eq!(session.state.stacks[2].len(), 1);
    assert_eq!(session.state.stacks[5].len(), 1);
}

#[test]
fn illegal_move_leaves_state_alone() {
    let mut stacks = empty_stacks();
    stacks[0] = vec![card(Suit::Clubs, 7, true)];
    stacks[1] = vec![card(Suit::Clubs, 3, true)];
    let g = GameState::new(stacks, Vec::new(), Vec::new());
    let before = g.duplicate();
    let mut session = StateWithUndoHistory { state: g, undo_stack: Vec::new() };
    let res = session_step(&mut session, InputState::SelectDestination(0), Input::Row(1));
    assert_eq!(res.next_mode, InputState::SelectSource);
    assert!(!res.save);
    assert!(session.state.same_as(&before));
}

#[test]
fn cheat_through_the_driver() {
    let g = GameState::init(&mut rand::rng());
    let mut session = StateWithUndoHistory { state: g, undo_stack: Vec::new() };
    // The harvest cheat, second entry of the menu.
    let res = session_step(&mut session, InputState::CheatMenu, Input::Row(1));
    assert_eq!(res.next_mode, InputState::SelectSource);
    assert!(res.save);
    assert_eq!(session.state.deck.len(), 60);
    assert_eq!(session.undo_stack.len(), 1);
}

#[test]
fn harvest_is_refused_on_an_empty_stack() {
    // One stack is empty, so the harvest cheat cannot be applied; the
    // driver leaves the table untouched.
    let mut stacks = empty_stacks();
    for s in stacks.iter_mut().skip(1) {
        s.push(card(Suit::Clubs, 4, true));
    }
    let g = GameState::new(stacks, Vec::new(), Vec::new());
    let before = g.duplicate();
    let mut session = StateWithUndoHistory { state: g, undo_stack: Vec::new() };
    let res = session_step(&mut session, InputState::CheatMenu, Input::Row(1));
    assert_eq!(res.next_mode, InputState::SelectSource);
    assert!(!res.save);
    assert!(session.state.same_as(&before));
    assert_eq!(session.undo_stack.len(), 0);
}

#[test]
fn redeal_is_refused_without_a_completed_suit() {
    let g = GameState::init(&mut rand::rng());
    let before = g.duplicate();
    let mut session = StateWithUndoHistory { state: g, undo_stack: Vec::new() };
    let res = session_step(&mut session, InputState::CheatMenu, Input::Row(0));
    assert!(!res.save);
    assert!(session.state.same_as(&before));
}

#[test]
fn mismatched_log_entry_is_reported_as_corruption() {
    // A deck-injecting cheat is logged without having been applied: its
    // recorded cards do not lie on the stacks, so undo refuses and leaves
    // everything alone.
    let mut stacks = empty_stacks();
    for s in stacks.iter_mut() {
        s.push(card(Suit::Clubs, 4, false));
    }
    let mut deck = Vec::new();
    for i in 0..20 {
        deck.push(card(Suit::Hearts, (i % 13) as u8, false));
    }
    let g = GameState::new(stacks, deck, Vec::new());
    let bogus = spider_engine::cheats::generate_cheat(&g, 2).unwrap();
    let before = g.duplicate();
    let mut session = StateWithUndoHistory {
        state: g,
        undo_stack: vec![spider_engine::action::Action::Cheat(bogus)],
    };
    let res = session_step(&mut session, InputState::SelectSource, Input::Undo);
    assert!(res.corrupted);
    assert!(session.state.same_as(&before));
    assert_eq!(session.undo_stack.len(), 1);
}

#[test]
fn keybindings_per_mode() {
    let source = get_keybindings(InputState::SelectSource);
    assert_eq!(source.len(), 7);
    assert_eq!(source[0].key, "[0-9]");
    assert_eq!(source[0].text, "Select a row to move cards from");
    assert_eq!(source[6].text, "Restart");

    let dest = get_keybindings(InputState::SelectDestination(4));
    assert_eq!(dest.len(), 8);
    assert_eq!(dest[0].text, "Select a row to move cards to");

    let menu = get_keybindings(InputState::CheatMenu);
    assert_eq!(menu.len(), 3);
    assert_eq!(menu[0].text, "Select a cheat");
    assert_eq!(menu[2].key, "[esc]");
}
