use spider_engine::action::{Action, GameState};
use spider_engine::cards::{topmost_run, Card, CardColor, CardRange, Groups, Suit};
use spider_engine::session::StateWithUndoHistory;

fn card(suit: Suit, rank: u8, up: bool) -> Card {
    Card { suit, rank, is_facing_up: up }
}

fn empty_stacks() -> Vec<Vec<Card>> {
    let mut v = Vec::new();
    for _ in 0..10 {
        v.push(Vec::new());
    }
    v
}

fn total_cards(s: &GameState) -> usize {
    let mut n = s.deck.len() + 13 * s.completed_stacks.len();
    for st in &s.stacks {
        n += st.len();
    }
    n
}

#[test]
fn init_layout() {
    let g = GameState::init(&mut rand::rng());
    assert_eq!(g.stacks.len(), 10);
    for (i, st) in g.stacks.iter().enumerate() {
        if i < 4 {
            assert_eq!(st.len(), 6);
        } else {
            assert_eq!(st.len(), 5);
        }
        assert!(st.last().unwrap().is_facing_up);
        for c in &st[..st.len() - 1] {
            assert!(!c.is_facing_up);
        }
        for c in st {
            assert!(c.rank < 13);
            assert!(c.suit == Suit::Clubs || c.suit == Suit::Hearts);
        }
    }
    assert_eq!(g.deck.len(), 50);
    assert_eq!(g.completed_stacks.len(), 0);
    assert_eq!(total_cards(&g), 104);
}

#[test]
fn init_deals_eight_of_each_rank() {
    let g = GameState::init(&mut rand::rng());
    let mut counts = [[0usize; 13]; 2];
    let mut all: Vec<Card> = g.deck.clone();
    for st in &g.stacks {
        all.extend(st.iter().copied());
    }
    for c in all {
        let s = if c.suit == Suit::Clubs { 0 } else { 1 };
        counts[s][c.rank as usize] += 1;
    }
    for s in 0..2 {
        for r in 0..13 {
            assert_eq!(counts[s][r], 4);
        }
    }
}

#[test]
fn topmost_run_exact_length() {
    // Top three cards face-up, same suit, descending by one; a face-up card
    // of the same suit below that breaks the rank order.
    let stack = vec![
        card(Suit::Clubs, 9, true),
        card(Suit::Clubs, 5, true),
        card(Suit::Clubs, 4, true),
        card(Suit::Clubs, 3, true),
    ];
    let run = topmost_run(&stack).unwrap();
    assert_eq!(run.high, 5);
    assert_eq!(run.low, 3);
    assert_eq!(run.len(), 3);
    assert!(run.is_facing_up);
}

#[test]
fn topmost_run_capped_by_face_down_card() {
    // The card below the top two is face-down although it continues the
    // ranks, so the run is exactly two.
    let stack = vec![
        card(Suit::Hearts, 7, false),
        card(Suit::Hearts, 6, true),
        card(Suit::Hearts, 5, true),
    ];
    let run = topmost_run(&stack).unwrap();
    assert_eq!(run.len(), 2);
    assert_eq!(run.high, 6);
    assert_eq!(run.low, 5);
}

#[test]
fn topmost_run_capped_by_suit_break() {
    let stack = vec![
        card(Suit::Hearts, 6, true),
        card(Suit::Clubs, 5, true),
        card(Suit::Clubs, 4, true),
    ];
    let run = topmost_run(&stack).unwrap();
    assert_eq!(run.len(), 2);
    assert_eq!(run.suit, Suit::Clubs);
}

#[test]
fn topmost_run_of_empty_stack() {
    let stack: Vec<Card> = Vec::new();
    assert!(topmost_run(&stack).is_none());
}

#[test]
fn groups_segment_whole_stack() {
    let stack = vec![
        card(Suit::Clubs, 9, false),
        card(Suit::Hearts, 4, true),
        card(Suit::Hearts, 3, true),
        card(Suit::Clubs, 8, true),
        card(Suit::Clubs, 7, true),
        card(Suit::Clubs, 6, true),
    ];
    let g = Groups::new(&stack);
    assert_eq!(g.0.len(), 3);
    assert_eq!(g.0[0].len(), 1);
    assert!(!g.0[0].is_facing_up);
    assert_eq!(g.0[1].high, 4);
    assert_eq!(g.0[1].low, 3);
    let last = g.last().unwrap();
    assert_eq!(last.high, 8);
    assert_eq!(last.low, 6);
}

#[test]
fn partial_run_move() {
    // Source top run covers ranks 5..2; destination top card has rank 3:
    // only the rank-2 card fits under it.
    let mut stacks = empty_stacks();
    stacks[0] = vec![
        card(Suit::Clubs, 5, true),
        card(Suit::Clubs, 4, true),
        card(Suit::Clubs, 3, true),
        card(Suit::Clubs, 2, true),
    ];
    stacks[1] = vec![card(Suit::Hearts, 3, true)];
    let g = GameState::new(stacks, Vec::new(), Vec::new());
    let run = g.can_move_to(0, 1).unwrap();
    assert_eq!(run.high, 2);
    assert_eq!(run.low, 2);
    assert_eq!(run.len(), 1);
    assert_eq!(run.suit, Suit::Clubs);
}

#[test]
fn can_move_to_rejects_same_stack_and_empty_source() {
    let mut stacks = empty_stacks();
    stacks[0] = vec![card(Suit::Clubs, 5, true)];
    let g = GameState::new(stacks, Vec::new(), Vec::new());
    assert!(g.can_move_to(0, 0).is_none());
    assert!(g.can_move_to(1, 2).is_none());
}

#[test]
fn whole_run_moves_to_empty_stack() {
    let mut stacks = empty_stacks();
    stacks[0] = vec![card(Suit::Clubs, 5, true), card(Suit::Clubs, 4, true)];
    let g = GameState::new(stacks, Vec::new(), Vec::new());
    let run = g.can_move_to(0, 3).unwrap();
    assert_eq!((run.high, run.low), (5, 4));
}

#[test]
fn move_round_trip_restores_state() {
    let mut stacks = empty_stacks();
    stacks[0] = vec![
        card(Suit::Clubs, 9, false),
        card(Suit::Clubs, 5, true),
        card(Suit::Clubs, 4, true),
    ];
    stacks[1] = vec![card(Suit::Hearts, 6, true)];
    let g = GameState::new(stacks, Vec::new(), Vec::new());
    let before = g.duplicate();
    let mut session = StateWithUndoHistory { state: g, undo_stack: Vec::new() };
    let action = session.state.move_from_to(0, 1).unwrap();
    match &action {
        Action::Move { range, flip_card, from, to } => {
            assert_eq!((range.high, range.low), (5, 4));
            assert!(*flip_card);
            assert_eq!((*from, *to), (0, 1));
        }
        _ => panic!("expected a move"),
    }
    session.perform_action(action);
    assert_eq!(session.state.stacks[1].len(), 3);
    assert!(session.state.stacks[0].last().unwrap().is_facing_up);
    assert!(!session.state.same_as(&before));
    assert!(session.undo());
    assert!(session.state.same_as(&before));
    assert_eq!(session.undo_stack.len(), 0);
}

#[test]
fn deal_round_trip_returns_cards_face_up() {
    // Dealing forces its ten cards face-up; undo returns them to the stock
    // as they then are, so face-down stock cards come back face-up.
    let mut stacks = empty_stacks();
    for s in stacks.iter_mut() {
        s.push(card(Suit::Clubs, 12, true));
    }
    let mut deck = Vec::new();
    for i in 0..10 {
        deck.push(card(Suit::Hearts, i as u8, false));
    }
    let g = GameState::new(stacks, deck, Vec::new());
    let before = g.duplicate();
    let mut session = StateWithUndoHistory { state: g, undo_stack: Vec::new() };
    session.perform_action(Action::Deal);
    assert_eq!(session.state.deck.len(), 0);
    for st in &session.state.stacks {
        assert_eq!(st.len(), 2);
        assert!(st.last().unwrap().is_facing_up);
    }
    assert!(session.undo());
    assert_eq!(session.state.deck.len(), 10);
    for (i, c) in session.state.deck.iter().enumerate() {
        let orig = before.deck[i];
        assert_eq!((c.suit, c.rank), (orig.suit, orig.rank));
        assert!(c.is_facing_up);
    }
    for (i, st) in session.state.stacks.iter().enumerate() {
        assert_eq!(st, &before.stacks[i]);
    }
}

#[test]
fn cascade_completes_exactly_one_suit() {
    // Ranks king down to two lie on stack zero; the ace arrives by a move,
    // finishing the run: exactly one completion is logged and no stack
    // qualifies afterwards.
    let mut stacks = empty_stacks();
    let mut run = Vec::new();
    run.push(card(Suit::Hearts, 3, false));
    for r in (1..13).rev() {
        run.push(card(Suit::Clubs, r as u8, true));
    }
    stacks[0] = run;
    stacks[1] = vec![card(Suit::Clubs, 0, true)];
    let g = GameState::new(stacks, Vec::new(), Vec::new());
    let mut session = StateWithUndoHistory { state: g, undo_stack: Vec::new() };
    let action = session.state.move_from_to(1, 0).unwrap();
    session.perform_action(action);
    assert_eq!(session.state.completed_stacks, vec![Suit::Clubs]);
    assert_eq!(session.undo_stack.len(), 2);
    match &session.undo_stack[1] {
        Action::RemoveFullStack { suit, stack, flip_card } => {
            assert_eq!(*suit, Suit::Clubs);
            assert_eq!(*stack, 0);
            assert!(*flip_card);
        }
        _ => panic!("expected a completion"),
    }
    // The uncovered card was turned face-up by the completion.
    assert_eq!(session.state.stacks[0].len(), 1);
    assert!(session.state.stacks[0][0].is_facing_up);
    // Re-scanning finds no further qualifying stack.
    for st in &session.state.stacks {
        if let Some(r) = topmost_run(st) {
            assert!(!(r.low == 0 && r.high == 12));
        }
    }
    // Cascade steps are undone one press at a time.
    assert!(session.undo());
    assert_eq!(session.state.completed_stacks, Vec::<Suit>::new());
    assert_eq!(session.state.stacks[0].len(), 14);
    assert!(session.undo());
    assert_eq!(session.state.stacks[0].len(), 13);
    assert_eq!(session.state.stacks[1].len(), 1);
}

#[test]
fn undo_on_empty_history_is_a_no_op() {
    let g = GameState::new(empty_stacks(), Vec::new(), Vec::new());
    let before = g.duplicate();
    let mut session = StateWithUndoHistory { state: g, undo_stack: Vec::new() };
    assert!(session.undo());
    assert!(session.state.same_as(&before));
}

#[test]
fn conservation_across_actions() {
    let g = GameState::init(&mut rand::rng());
    let mut session = StateWithUndoHistory { state: g, undo_stack: Vec::new() };
    assert_eq!(total_cards(&session.state), 104);
    session.perform_action(Action::Deal);
    assert_eq!(total_cards(&session.state), 104);
    for from in 0..10 {
        for to in 0..10 {
            if let Some(action) = session.state.move_from_to(from, to) {
                session.perform_action(action);
                assert_eq!(total_cards(&session.state), 104);
            }
        }
    }
    while session.undo_stack.len() > 0 {
        assert!(session.undo());
        assert_eq!(total_cards(&session.state), 104);
    }
}

#[test]
fn card_range_queries() {
    let r = CardRange { suit: Suit::Clubs, high: 5, low: 2, is_facing_up: true };
    assert_eq!(r.len(), 4);
    assert!(r.contains_rank(2));
    assert!(r.contains_rank(5));
    assert!(!r.contains_rank(6));
    assert!(!r.contains_rank(1));
    assert_eq!(r.first().unwrap().rank, 5);
    assert_eq!(r.last().unwrap().rank, 2);
    let cards = r.cards();
    assert_eq!(cards.len(), 4);
    assert_eq!(cards[0].rank, 5);
    assert_eq!(cards[3].rank, 2);
}

#[test]
fn suit_colors() {
    assert!(Suit::Hearts.get_color() == CardColor::Red);
    assert!(Suit::Diamonds.get_color() == CardColor::Red);
    assert!(Suit::Clubs.get_color() == CardColor::Black);
    assert!(Suit::Spades.get_color() == CardColor::Black);
}
