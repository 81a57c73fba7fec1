use spider_engine::action::{Action, GameState};
use spider_engine::cards::{Card, Suit};
use spider_engine::cheats::{generate_cheat, Cheat};
use spider_engine::session::StateWithUndoHistory;

fn card(suit: Suit, rank: u8, up: bool) -> Card {
    Card { suit, rank, is_facing_up: up }
}

fn empty_stacks() -> Vec<Vec<Card>> {
    let mut v = Vec::new();
    for _ in 0..10 {
        v.push(Vec::new());
    }
    v
}

fn total_cards(s: &GameState) -> usize {
    let mut n = s.deck.len() + 13 * s.completed_stacks.len();
    for st in &s.stacks {
        n += st.len();
    }
    n
}

#[test]
fn redeal_requires_a_completed_suit() {
    let g = GameState::new(empty_stacks(), Vec::new(), Vec::new());
    assert!(generate_cheat(&g, 0).is_none());
}

#[test]
fn unknown_cheat_number_gives_none() {
    let g = GameState::new(empty_stacks(), Vec::new(), Vec::new());
    assert!(generate_cheat(&g, 3).is_none());
    assert!(generate_cheat(&g, 99).is_none());
}

#[test]
fn redeal_round_trip_restores_state_and_generator() {
    let mut stacks = empty_stacks();
    for s in stacks.iter_mut() {
        s.push(card(Suit::Hearts, 12, true));
    }
    let g = GameState::new(stacks, Vec::new(), vec![Suit::Clubs]);
    let before = g.duplicate();
    let mut session = StateWithUndoHistory { state: g, undo_stack: Vec::new() };
    let cheat = generate_cheat(&session.state, 0).unwrap();
    match &cheat {
        Cheat::RedealStacks { cards, suit, .. } => {
            assert_eq!(cards.len(), 13);
            assert_eq!(*suit, Suit::Clubs);
            let mut sorted = cards.clone();
            sorted.sort();
            let expected: Vec<u8> = (0..13).collect();
            assert_eq!(sorted, expected);
        }
        _ => panic!("expected a redeal"),
    }
    session.perform_action(Action::Cheat(cheat));
    assert_eq!(session.state.completed_stacks.len(), 0);
    assert_eq!(session.state.deck.len(), 10);
    for (i, st) in session.state.stacks.iter().enumerate() {
        if i < 3 {
            assert_eq!(st.len(), 2);
        } else {
            assert_eq!(st.len(), 1);
        }
    }
    assert!(!session.state.same_as(&before));
    assert!(session.undo());
    assert!(session.state.same_as(&before));
}

#[test]
fn harvest_round_trip_restores_state() {
    let g = GameState::init(&mut rand::rng());
    let before = g.duplicate();
    let mut session = StateWithUndoHistory { state: g, undo_stack: Vec::new() };
    let cheat = generate_cheat(&session.state, 1).unwrap();
    session.perform_action(Action::Cheat(cheat));
    assert_eq!(session.state.deck.len(), 60);
    for (i, st) in session.state.stacks.iter().enumerate() {
        if i < 4 {
            assert_eq!(st.len(), 5);
        } else {
            assert_eq!(st.len(), 4);
        }
        // Harvesting the face-up top exposes the face-down card below, which
        // the recorded flags turn face-up.
        assert!(st.last().unwrap().is_facing_up);
    }
    assert!(session.undo());
    assert!(session.state.same_as(&before));
}

#[test]
fn add_another_deck_injects_twenty_six_cards() {
    let g = GameState::init(&mut rand::rng());
    let before = g.duplicate();
    let mut session = StateWithUndoHistory { state: g, undo_stack: Vec::new() };
    let cheat = generate_cheat(&session.state, 2).unwrap();
    match &cheat {
        Cheat::AddAnotherDeck { deck, .. } => {
            assert_eq!(deck.len(), 26);
            let mut counts = [[0usize; 13]; 2];
            for c in deck {
                assert!(c.is_facing_up);
                let s = if c.suit == Suit::Clubs { 0 } else { 1 };
                counts[s][c.rank as usize] += 1;
            }
            for s in 0..2 {
                for r in 0..13 {
                    assert_eq!(counts[s][r], 1);
                }
            }
        }
        _ => panic!("expected the extra deck"),
    }
    session.perform_action(Action::Cheat(cheat));
    assert_eq!(total_cards(&session.state), 130);
    // The remainder lands on the tails of the last six stacks.
    for (i, st) in session.state.stacks.iter().enumerate() {
        let base = if i < 4 { 6 } else { 5 };
        let extra = if i >= 4 { 1 } else { 0 };
        assert_eq!(st.len(), base + extra);
    }
    assert_eq!(session.state.deck.len(), 70);
    assert!(session.undo());
    assert!(session.state.same_as(&before));
    assert_eq!(total_cards(&session.state), 104);
}

#[test]
fn generating_twice_leaves_the_table_alone() {
    let g = GameState::init(&mut rand::rng());
    let before = g.duplicate();
    let c1 = generate_cheat(&g, 2).unwrap();
    let c2 = generate_cheat(&g, 2).unwrap();
    assert!(g.same_as(&before));
    // Both draws clone the same snapshot, so for a fixed state the shuffles
    // agree; each value stays individually reversible regardless.
    match (&c1, &c2) {
        (Cheat::AddAnotherDeck { deck: d1, .. }, Cheat::AddAnotherDeck { deck: d2, .. }) => {
            assert_eq!(d1.len(), d2.len());
        }
        _ => panic!("expected extra decks"),
    }
}
