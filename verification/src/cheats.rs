//! The cheat subsystem: privileged transitions that bypass move legality but
//! stay exactly reversible.
//!
//! Every cheat that consumes randomness stores the generator state from
//! before and after its shuffle; undo restores the "before" snapshot
//! verbatim instead of trying to invert the generator.

use vstd::prelude::*;

use crate::action::{face_up_card, set_top_face, GameState, Table};
use crate::cards::{Card, Suit};
use crate::rng::{rng_clone, rng_eq, shuffle_cards, shuffle_ranks, SpiderRand};

verus! {

/// A privileged, reversible table transformation.
pub enum Cheat {
    RedealStacks {
        cards: Vec<u8>,
        suit: Suit,
        prev_rng_state: Box<SpiderRand>,
        next_rng_state: Box<SpiderRand>,
    },
    HarvestTopRow { turn_over_cards: Vec<bool> },
    AddAnotherDeck {
        prev_rng_state: Box<SpiderRand>,
        next_rng_state: Box<SpiderRand>,
        deck: Vec<Card>,
    },
}

/// A face-up card of the given suit and rank.
pub open spec fn rank_card(suit: Suit, rank: u8) -> Card {
    Card { suit, rank, is_facing_up: true }
}

/// The extra half-deck the third cheat injects: each rank once per playable
/// suit, face-up, before shuffling.
pub open spec fn half_deck_seq() -> Seq<Card> {
    Seq::new(
        26,
        |i: int|
            Card {
                suit: if i % 2 == 0 {
                    Suit::Clubs
                } else {
                    Suit::Hearts
                },
                rank: (i / 2) as u8,
                is_facing_up: true,
            },
    )
}

/// The thirteen ranks, in order.
pub open spec fn all_ranks_seq() -> Seq<u8> {
    Seq::new(13, |i: int| i as u8)
}

/// The cheat's recorded parameters match the table it is applied to.
pub open spec fn cheat_fits(c: Cheat, t: Table) -> bool {
    match c {
        Cheat::RedealStacks { cards, suit, prev_rng_state, next_rng_state } => {
            &&& t.wf()
            &&& cards@.len() == 13
            &&& t.completed.len() > 0
            &&& t.completed.last() == suit
            &&& *prev_rng_state == t.rng
        },
        Cheat::HarvestTopRow { turn_over_cards } => {
            &&& t.wf()
            &&& turn_over_cards@.len() == 10
            &&& forall|i: int| 0 <= i < 10 ==> (#[trigger] t.stacks[i]).len() > 0
            &&& forall|i: int|
                0 <= i < 10 ==> (turn_over_cards@[i] <==> ((#[trigger] t.stacks[i]).len() >= 2
                    && !t.stacks[i][t.stacks[i].len() - 2].is_facing_up))
        },
        Cheat::AddAnotherDeck { prev_rng_state, next_rng_state, deck } => {
            &&& t.wf()
            &&& deck@.len() == 26
            &&& forall|i: int| 0 <= i < 26 ==> (#[trigger] deck@[i]).is_facing_up
            &&& *prev_rng_state == t.rng
        },
    }
}

/// What undoing the cheat needs of the table it is undone on. For the third
/// cheat the recorded cards must still lie where apply put them; a mismatch
/// is the corruption signal.
pub open spec fn cheat_undo_fits(c: Cheat, t: Table) -> bool {
    match c {
        Cheat::RedealStacks { cards, suit, prev_rng_state, next_rng_state } => {
            &&& t.wf()
            &&& cards@.len() == 13
            &&& t.deck.len() >= 10
            &&& forall|i: int|
                0 <= i < cards@.len() % 10 ==> (#[trigger] t.stacks[i]).len() > 0
        },
        Cheat::HarvestTopRow { turn_over_cards } => {
            &&& t.wf()
            &&& turn_over_cards@.len() == 10
            &&& t.deck.len() >= 10
            &&& forall|i: int|
                0 <= i < 10 && turn_over_cards@[i] ==> (#[trigger] t.stacks[i]).len() > 0
        },
        Cheat::AddAnotherDeck { prev_rng_state, next_rng_state, deck } => {
            &&& t.wf()
            &&& deck@.len() == 26
            &&& t.deck.len() >= deck@.len() - deck@.len() % 10
            &&& forall|j: int|
                10 - deck@.len() % 10 <= j < 10 ==> (#[trigger] t.stacks[j]).len() > 0
                    && t.stacks[j].last() == deck@[9 - j]
        },
    }
}

pub open spec fn spec_apply_redeal(t: Table, ranks: Seq<u8>, suit: Suit, next: SpiderRand) -> Table {
    let bulk = ranks.len() - (ranks.len() % 10);
    Table {
        rng: next,
        completed: t.completed.drop_last(),
        deck: t.deck + Seq::new(bulk as nat, |i: int| rank_card(suit, ranks[i])),
        stacks: Seq::new(
            t.stacks.len(),
            |i: int|
                if i < ranks.len() % 10 {
                    t.stacks[i].push(rank_card(suit, ranks[bulk + i]))
                } else {
                    t.stacks[i]
                },
        ),
    }
}

pub open spec fn spec_undo_redeal(t: Table, ranks: Seq<u8>, suit: Suit, prev: SpiderRand) -> Table {
    let rem = ranks.len() % 10;
    Table {
        rng: prev,
        stacks: Seq::new(
            t.stacks.len(),
            |i: int|
                if i < rem {
                    t.stacks[i].drop_last()
                } else {
                    t.stacks[i]
                },
        ),
        deck: t.deck.take(t.deck.len() - 10),
        completed: t.completed.push(suit),
    }
}

pub open spec fn spec_apply_harvest(t: Table, flags: Seq<bool>) -> Table {
    Table {
        deck: t.deck + Seq::new(t.stacks.len(), |i: int| t.stacks[i].last()),
        stacks: Seq::new(
            t.stacks.len(),
            |i: int|
                if flags[i] {
                    set_top_face(t.stacks[i].drop_last(), true)
                } else {
                    t.stacks[i].drop_last()
                },
        ),
        ..t
    }
}

pub open spec fn spec_undo_harvest(t: Table, flags: Seq<bool>) -> Table {
    let n = t.deck.len();
    Table {
        stacks: Seq::new(
            t.stacks.len(),
            |i: int|
                (if flags[i] {
                    set_top_face(t.stacks[i], false)
                } else {
                    t.stacks[i]
                }).push(face_up_card(t.deck[n - 10 + i])),
        ),
        deck: t.deck.take(n - 10),
        ..t
    }
}

pub open spec fn spec_apply_adddeck(t: Table, cards: Seq<Card>, next: SpiderRand) -> Table {
    let rem = cards.len() % 10;
    Table {
        rng: next,
        stacks: Seq::new(
            t.stacks.len(),
            |j: int|
                if j >= t.stacks.len() - rem {
                    t.stacks[j].push(cards[t.stacks.len() - 1 - j])
                } else {
                    t.stacks[j]
                },
        ),
        deck: t.deck + cards.skip(rem as int),
        ..t
    }
}

pub open spec fn spec_undo_adddeck(t: Table, cards: Seq<Card>, prev: SpiderRand) -> Table {
    let rem = cards.len() % 10;
    Table {
        rng: prev,
        stacks: Seq::new(
            t.stacks.len(),
            |j: int|
                if j >= t.stacks.len() - rem {
                    t.stacks[j].drop_last()
                } else {
                    t.stacks[j]
                },
        ),
        deck: t.deck.take(t.deck.len() - (cards.len() - rem)),
        ..t
    }
}

pub open spec fn spec_apply_cheat(t: Table, c: Cheat) -> Table {
    match c {
        Cheat::RedealStacks { cards, suit, prev_rng_state, next_rng_state } => spec_apply_redeal(
            t,
            cards@,
            suit,
            *next_rng_state,
        ),
        Cheat::HarvestTopRow { turn_over_cards } => spec_apply_harvest(t, turn_over_cards@),
        Cheat::AddAnotherDeck { prev_rng_state, next_rng_state, deck } => spec_apply_adddeck(
            t,
            deck@,
            *next_rng_state,
        ),
    }
}

/// Generate a cheat from the current state, eagerly drawing whatever
/// randomness it needs.
///
/// The first cheat is available exactly when a suit has been completed; the
/// third is always available; any other number names no cheat. The second is
/// always generated, but applying it additionally needs every stack
/// non-empty, which the caller must check.
pub fn generate_cheat(game_state: &GameState, cheat_number: usize) -> (r: Option<Cheat>)
    requires
        game_state.wf(),
    ensures
        cheat_number == 0 ==> ((r is Some) <==> game_state@.completed.len() > 0),
        cheat_number == 1 ==> r is Some,
        cheat_number == 2 ==> r is Some,
        cheat_number >= 3 ==> r is None,
        match r {
            None => true,
            Some(c) => match c {
                Cheat::RedealStacks { cards, suit, prev_rng_state, next_rng_state } => {
                    &&& cheat_number == 0
                    &&& cheat_fits(c, game_state@)
                    &&& cards@.to_multiset() == all_ranks_seq().to_multiset()
                },
                Cheat::HarvestTopRow { turn_over_cards } => {
                    &&& cheat_number == 1
                    &&& turn_over_cards@.len() == 10
                    &&& forall|i: int|
                        0 <= i < 10 ==> (turn_over_cards@[i] <==> ((#[trigger] game_state@.stacks[i]).len()
                            >= 2 && !game_state@.stacks[i][game_state@.stacks[i].len()
                            - 2].is_facing_up))
                },
                Cheat::AddAnotherDeck { prev_rng_state, next_rng_state, deck } => {
                    &&& cheat_number == 2
                    &&& cheat_fits(c, game_state@)
                    &&& deck@.to_multiset() == half_deck_seq().to_multiset()
                },
            },
        },
{
    if cheat_number == 0 {
        if game_state.completed_stacks.len() == 0 {
            return None;
        }
        let suit = game_state.completed_stacks[game_state.completed_stacks.len() - 1];
        let mut rng2 = rng_clone(&game_state.rng);
        let mut cards: Vec<u8> = Vec::new();
        let mut i: u8 = 0;
        while i < 13
            invariant
                i <= 13,
                cards@.len() == i as int,
                forall|j: int| 0 <= j < i ==> cards@[j] == j as u8,
            decreases 13 - i,
        {
            cards.push(i);
            i += 1;
        }
        proof {
            assert(cards@ =~= all_ranks_seq());
        }
        shuffle_ranks(&mut rng2, &mut cards);
        Some(
            Cheat::RedealStacks {
                cards,
                suit,
                prev_rng_state: Box::new(rng_clone(&game_state.rng)),
                next_rng_state: Box::new(rng2),
            },
        )
    } else if cheat_number == 1 {
        let mut flags: Vec<bool> = Vec::new();
        let mut i: usize = 0;
        while i < 10
            invariant
                i <= 10,
                game_state.stacks@.len() == 10,
                flags@.len() == i as int,
                forall|j: int|
                    0 <= j < i ==> (flags@[j] <==> ((#[trigger] game_state.stacks@[j])@.len() >= 2
                        && !game_state.stacks@[j]@[game_state.stacks@[j]@.len()
                        - 2].is_facing_up)),
            decreases 10 - i,
        {
            let st_len = game_state.stacks[i].len();
            let f = st_len >= 2 && !game_state.stacks[i][st_len - 2].is_facing_up;
            flags.push(f);
            i += 1;
        }
        Some(Cheat::HarvestTopRow { turn_over_cards: flags })
    } else if cheat_number == 2 {
        let mut rng2 = rng_clone(&game_state.rng);
        let mut deck: Vec<Card> = Vec::new();
        let mut rank: u8 = 0;
        while rank < 13
            invariant
                rank <= 13,
                deck@.len() == 2 * rank as int,
                forall|j: int| 0 <= j < 2 * rank as int ==> deck@[j] == half_deck_seq()[j],
            decreases 13 - rank,
        {
            deck.push(Card { suit: Suit::Clubs, rank, is_facing_up: true });
            deck.push(Card { suit: Suit::Hearts, rank, is_facing_up: true });
            rank += 1;
        }
        proof {
            assert(deck@ =~= half_deck_seq());
        }
        shuffle_cards(&mut rng2, &mut deck);
        proof {
            crate::action::lemma_multiset_transfer(half_deck_seq(), deck@);
            assert forall|j: int| 0 <= j < deck@.len() implies (#[trigger] deck@[j]).is_facing_up by {
                assert(half_deck_seq().contains(deck@[j]));
                let i = choose|i: int|
                    0 <= i < half_deck_seq().len() && half_deck_seq()[i] == deck@[j];
                assert(half_deck_seq()[i].is_facing_up);
            }
        }
        Some(
            Cheat::AddAnotherDeck {
                prev_rng_state: Box::new(rng_clone(&game_state.rng)),
                next_rng_state: Box::new(rng2),
                deck,
            },
        )
    } else {
        None
    }
}

/// Check at run time that a generated cheat can be applied to this state;
/// the second cheat additionally needs every stack non-empty.
#[verifier::loop_isolation(false)]
pub fn cheat_fits_check(c: &Cheat, s: &GameState) -> (r: bool)
    requires
        s.wf(),
    ensures
        r == cheat_fits(*c, s@),
{
    match c {
        Cheat::RedealStacks { cards, suit, prev_rng_state, next_rng_state: _ } => {
            if cards.len() != 13 {
                return false;
            }
            if s.completed_stacks.len() == 0 {
                return false;
            }
            let last = s.completed_stacks[s.completed_stacks.len() - 1];
            last == *suit && rng_eq(&**prev_rng_state, &s.rng)
        },
        Cheat::HarvestTopRow { turn_over_cards } => {
            if turn_over_cards.len() != 10 {
                return false;
            }
            let mut i: usize = 0;
            while i < 10
                invariant
                    i <= 10,
                    s.wf(),
                    turn_over_cards@.len() == 10,
                    forall|j: int| 0 <= j < i ==> (#[trigger] s@.stacks[j]).len() > 0,
                    forall|j: int|
                        0 <= j < i ==> (turn_over_cards@[j] <==> ((#[trigger] s@.stacks[j]).len()
                            >= 2 && !s@.stacks[j][s@.stacks[j].len() - 2].is_facing_up)),
                decreases 10 - i,
            {
                let li = s.stacks[i].len();
                if li == 0 {
                    proof {
                        assert(s@.stacks[i as int].len() == 0);
                    }
                    return false;
                }
                let expect = li >= 2 && !s.stacks[i][li - 2].is_facing_up;
                if turn_over_cards[i] != expect {
                    proof {
                        assert(!(turn_over_cards@[i as int] <==> ((s@.stacks[i as int]).len() >= 2
                            && !s@.stacks[i as int][s@.stacks[i as int].len()
                            - 2].is_facing_up)));
                    }
                    return false;
                }
                i += 1;
            }
            true
        },
        Cheat::AddAnotherDeck { prev_rng_state, next_rng_state: _, deck } => {
            if deck.len() != 26 {
                return false;
            }
            let mut i: usize = 0;
            while i < 26
                invariant
                    i <= 26,
                    deck@.len() == 26,
                    forall|j: int| 0 <= j < i ==> (#[trigger] deck@[j]).is_facing_up,
                decreases 26 - i,
            {
                if !deck[i].is_facing_up {
                    return false;
                }
                i += 1;
            }
            rng_eq(&**prev_rng_state, &s.rng)
        },
    }
}

/// Check at run time that a logged cheat can be undone on this state;
/// `false` for the third cheat means the recorded cards no longer lie where
/// apply put them — the corruption signal.
#[verifier::loop_isolation(false)]
pub fn cheat_undo_fits_check(c: &Cheat, s: &GameState) -> (r: bool)
    requires
        s.wf(),
    ensures
        r == cheat_undo_fits(*c, s@),
{
    match c {
        Cheat::RedealStacks { cards, suit: _, prev_rng_state: _, next_rng_state: _ } => {
            if cards.len() != 13 {
                return false;
            }
            if s.deck.len() < 10 {
                return false;
            }
            let rem = cards.len() % 10;
            let mut i: usize = 0;
            while i < rem
                invariant
                    i <= rem,
                    rem == 3,
                    cards@.len() == 13,
                    s.wf(),
                    forall|j: int| 0 <= j < i ==> (#[trigger] s@.stacks[j]).len() > 0,
                decreases rem - i,
            {
                if s.stacks[i].len() == 0 {
                    proof {
                        assert(s@.stacks[i as int].len() == 0);
                    }
                    return false;
                }
                i += 1;
            }
            true
        },
        Cheat::HarvestTopRow { turn_over_cards } => {
            if turn_over_cards.len() != 10 {
                return false;
            }
            if s.deck.len() < 10 {
                return false;
            }
            let mut i: usize = 0;
            while i < 10
                invariant
                    i <= 10,
                    s.wf(),
                    turn_over_cards@.len() == 10,
                    forall|j: int|
                        0 <= j < i && turn_over_cards@[j] ==> (#[trigger] s@.stacks[j]).len() > 0,
                decreases 10 - i,
            {
                if turn_over_cards[i] && s.stacks[i].len() == 0 {
                    proof {
                        assert(s@.stacks[i as int].len() == 0);
                    }
                    return false;
                }
                i += 1;
            }
            true
        },
        Cheat::AddAnotherDeck { prev_rng_state: _, next_rng_state: _, deck } => {
            if deck.len() != 26 {
                return false;
            }
            let rem = deck.len() % 10;
            if s.deck.len() < deck.len() - rem {
                return false;
            }
            let mut j: usize = 10 - rem;
            while j < 10
                invariant
                    10 - rem <= j <= 10,
                    rem == 6,
                    deck@.len() == 26,
                    s.wf(),
                    forall|m: int|
                        10 - rem <= m < j ==> (#[trigger] s@.stacks[m]).len() > 0
                            && s@.stacks[m].last() == deck@[9 - m],
                decreases 10 - j,
            {
                let n = s.stacks[j].len();
                if n == 0 {
                    proof {
                        assert(s@.stacks[j as int].len() == 0);
                    }
                    return false;
                }
                if !(s.stacks[j][n - 1] == deck[9 - j]) {
                    proof {
                        assert(s@.stacks[j as int].last() != deck@[9 - j as int]);
                    }
                    return false;
                }
                j += 1;
            }
            true
        },
    }
}

/// Apply a generated cheat. Its recorded parameters are trusted to match
/// the state, as with every action; application realises exactly the spec
/// transition.
pub fn apply_cheat(game_state: &mut GameState, cheat: &Cheat)
    requires
        cheat_fits(*cheat, old(game_state)@),
    ensures
        final(game_state)@ == spec_apply_cheat(old(game_state)@, *cheat),
{
    match cheat {
        Cheat::RedealStacks { cards, suit, prev_rng_state: _, next_rng_state } => {
            game_state.rng = rng_clone(&**next_rng_state);
            let _ = game_state.completed_stacks.pop();
            let total = cards.len();
            let rem = total % 10;
            let bulk = total - rem;
            let mut i: usize = 0;
            while i < bulk
                invariant
                    i <= bulk,
                    bulk == cards@.len() - cards@.len() % 10,
                    cards@.len() == 13,
                    game_state.stacks@.len() == 10,
                    game_state.completed_stacks@ == old(game_state).completed_stacks@.drop_last(),
                    game_state.rng == **next_rng_state,
                    game_state.deck@ == old(game_state).deck@ + Seq::new(
                        i as nat,
                        |j: int| rank_card(*suit, cards@[j]),
                    ),
                    forall|j: int|
                        0 <= j < 10 ==> game_state.stacks@[j] == old(game_state).stacks@[j],
                decreases bulk - i,
            {
                game_state.deck.push(Card { suit: *suit, rank: cards[i], is_facing_up: true });
                proof {
                    assert(game_state.deck@ =~= old(game_state).deck@ + Seq::new(
                        (i + 1) as nat,
                        |j: int| rank_card(*suit, cards@[j]),
                    ));
                }
                i += 1;
            }
            let mut j: usize = 0;
            while j < rem
                invariant
                    j <= rem,
                    rem == cards@.len() % 10,
                    bulk == cards@.len() - rem,
                    cards@.len() == 13,
                    game_state.stacks@.len() == 10,
                    game_state.completed_stacks@ == old(game_state).completed_stacks@.drop_last(),
                    game_state.rng == **next_rng_state,
                    game_state.deck@ == old(game_state).deck@ + Seq::new(
                        bulk as nat,
                        |m: int| rank_card(*suit, cards@[m]),
                    ),
                    forall|m: int|
                        j <= m < 10 ==> game_state.stacks@[m] == old(game_state).stacks@[m],
                    forall|m: int|
                        0 <= m < j ==> (#[trigger] game_state.stacks@[m])@ == old(
                            game_state,
                        ).stacks@[m]@.push(rank_card(*suit, cards@[bulk + m])),
                decreases rem - j,
            {
                game_state.stacks[j].push(
                    Card { suit: *suit, rank: cards[bulk + j], is_facing_up: true },
                );
                j += 1;
            }
            proof {
                assert(game_state@.stacks =~~= spec_apply_cheat(old(game_state)@, *cheat).stacks);
                assert(game_state@.completed =~= spec_apply_cheat(
                    old(game_state)@,
                    *cheat,
                ).completed);
                assert(game_state@ =~~= spec_apply_cheat(old(game_state)@, *cheat));
            }
        },
        Cheat::HarvestTopRow { turn_over_cards } => {
            proof {
                assert forall|j: int| 0 <= j < 10 implies (#[trigger] old(
                    game_state,
                ).stacks@[j])@.len() > 0 by {
                    assert(old(game_state)@.stacks[j].len() > 0);
                }
            }
            let mut i: usize = 0;
            while i < 10
                invariant
                    i <= 10,
                    game_state.stacks@.len() == 10,
                    forall|j: int|
                        0 <= j < 10 ==> (#[trigger] old(game_state).stacks@[j])@.len() > 0,
                    game_state.deck@ == old(game_state).deck@ + Seq::new(
                        i as nat,
                        |j: int| old(game_state).stacks@[j]@.last(),
                    ),
                    game_state.completed_stacks == old(game_state).completed_stacks,
                    game_state.rng == old(game_state).rng,
                    forall|j: int|
                        i <= j < 10 ==> game_state.stacks@[j] == old(game_state).stacks@[j],
                    forall|j: int|
                        0 <= j < i ==> (#[trigger] game_state.stacks@[j])@ == old(
                            game_state,
                        ).stacks@[j]@.drop_last(),
                decreases 10 - i,
            {
                let c = game_state.stacks[i].pop().unwrap();
                game_state.deck.push(c);
                proof {
                    assert(game_state.deck@ =~= old(game_state).deck@ + Seq::new(
                        (i + 1) as nat,
                        |j: int| old(game_state).stacks@[j]@.last(),
                    ));
                }
                i += 1;
            }
            let ghost mid = game_state.stacks@;
            proof {
                assert forall|m: int| 0 <= m < 10 && turn_over_cards@[m] implies (#[trigger] mid[m])@.len()
                    > 0 by {
                    assert(old(game_state)@.stacks[m].len() >= 2);
                    assert(mid[m]@ == old(game_state).stacks@[m]@.drop_last());
                }
            }
            let mut j: usize = 0;
            while j < 10
                invariant
                    j <= 10,
                    turn_over_cards@.len() == 10,
                    game_state.stacks@.len() == 10,
                    mid.len() == 10,
                    forall|m: int|
                        0 <= m < 10 && turn_over_cards@[m] ==> (#[trigger] mid[m])@.len() > 0,
                    game_state.deck@ == old(game_state).deck@ + Seq::new(
                        10,
                        |m: int| old(game_state).stacks@[m]@.last(),
                    ),
                    game_state.completed_stacks == old(game_state).completed_stacks,
                    game_state.rng == old(game_state).rng,
                    forall|m: int| j <= m < 10 ==> game_state.stacks@[m] == mid[m],
                    forall|m: int|
                        0 <= m < j ==> (#[trigger] game_state.stacks@[m])@ == (if turn_over_cards@[m] {
                            set_top_face(mid[m]@, true)
                        } else {
                            mid[m]@
                        }),
                decreases 10 - j,
            {
                if turn_over_cards[j] {
                    proof {
                        assert(game_state.stacks@[j as int] == mid[j as int]);
                    }
                    let n = game_state.stacks[j].len();
                    game_state.stacks[j][n - 1].is_facing_up = true;
                    proof {
                        assert(game_state.stacks@[j as int]@ =~= set_top_face(mid[j as int]@, true));
                    }
                }
                j += 1;
            }
            proof {
                assert(game_state@.stacks =~~= spec_apply_cheat(old(game_state)@, *cheat).stacks);
                assert(game_state@ =~~= spec_apply_cheat(old(game_state)@, *cheat));
            }
        },
        Cheat::AddAnotherDeck { prev_rng_state: _, next_rng_state, deck } => {
            game_state.rng = rng_clone(&**next_rng_state);
            let total = deck.len();
            let rem = total % 10;
            let mut i: usize = 0;
            while i < rem
                invariant
                    i <= rem,
                    rem == deck@.len() % 10,
                    rem < 10,
                    deck@.len() == 26,
                    game_state.stacks@.len() == 10,
                    game_state.rng == **next_rng_state,
                    game_state.deck@ == old(game_state).deck@,
                    game_state.completed_stacks == old(game_state).completed_stacks,
                    forall|m: int|
                        0 <= m < 10 && m < 10 - i ==> game_state.stacks@[m] == old(
                            game_state,
                        ).stacks@[m],
                    forall|m: int|
                        10 - i <= m < 10 ==> (#[trigger] game_state.stacks@[m])@ == old(
                            game_state,
                        ).stacks@[m]@.push(deck@[9 - m]),
                decreases rem - i,
            {
                game_state.stacks[9 - i].push(deck[i]);
                i += 1;
            }
            let mut k: usize = rem;
            while k < total
                invariant
                    rem <= k <= total,
                    rem == deck@.len() % 10,
                    total == deck@.len(),
                    deck@.len() == 26,
                    game_state.stacks@.len() == 10,
                    game_state.rng == **next_rng_state,
                    game_state.deck@ == old(game_state).deck@ + deck@.subrange(rem as int, k as int),
                    game_state.completed_stacks == old(game_state).completed_stacks,
                    forall|m: int|
                        0 <= m < 10 - rem ==> game_state.stacks@[m] == old(game_state).stacks@[m],
                    forall|m: int|
                        10 - rem <= m < 10 ==> (#[trigger] game_state.stacks@[m])@ == old(
                            game_state,
                        ).stacks@[m]@.push(deck@[9 - m]),
                decreases total - k,
            {
                game_state.deck.push(deck[k]);
                proof {
                    assert(game_state.deck@ =~= old(game_state).deck@ + deck@.subrange(
                        rem as int,
                        k + 1,
                    ));
                }
                k += 1;
            }
            proof {
                assert(game_state@.stacks =~~= spec_apply_cheat(old(game_state)@, *cheat).stacks);
                assert(game_state@.deck =~= spec_apply_cheat(old(game_state)@, *cheat).deck);
                assert(game_state@ =~~= spec_apply_cheat(old(game_state)@, *cheat));
            }
        },
    }
}

/// Reverse a cheat: restore the "before" generator snapshot verbatim and
/// take back every card the cheat distributed.
pub fn undo_cheat(game_state: &mut GameState, cheat: &Cheat)
    requires
        cheat_undo_fits(*cheat, old(game_state)@),
    ensures
        final(game_state)@ == spec_undo_cheat(old(game_state)@, *cheat),
{
    match cheat {
        Cheat::RedealStacks { cards, suit, prev_rng_state, next_rng_state: _ } => {
            game_state.rng = rng_clone(&**prev_rng_state);
            let rem = cards.len() % 10;
            proof {
                assert forall|m: int| 0 <= m < rem implies (#[trigger] old(
                    game_state,
                ).stacks@[m])@.len() > 0 by {
                    assert(old(game_state)@.stacks[m].len() > 0);
                }
            }
            let mut i: usize = 0;
            while i < rem
                invariant
                    i <= rem,
                    rem == cards@.len() % 10,
                    cards@.len() == 13,
                    game_state.stacks@.len() == 10,
                    forall|m: int|
                        0 <= m < rem ==> (#[trigger] old(game_state).stacks@[m])@.len() > 0,
                    game_state.rng == **prev_rng_state,
                    game_state.deck@ == old(game_state).deck@,
                    game_state.completed_stacks == old(game_state).completed_stacks,
                    forall|m: int|
                        i <= m < 10 ==> game_state.stacks@[m] == old(game_state).stacks@[m],
                    forall|m: int|
                        0 <= m < i ==> (#[trigger] game_state.stacks@[m])@ == old(
                            game_state,
                        ).stacks@[m]@.drop_last(),
                decreases rem - i,
            {
                let _ = game_state.stacks[i].pop();
                i += 1;
            }
            let dl = game_state.deck.len();
            game_state.deck.truncate(dl - 10);
            game_state.completed_stacks.push(*suit);
            proof {
                assert(game_state@.stacks =~~= spec_undo_cheat(old(game_state)@, *cheat).stacks);
                assert(game_state@ =~~= spec_undo_cheat(old(game_state)@, *cheat));
            }
        },
        Cheat::HarvestTopRow { turn_over_cards } => {
            proof {
                assert forall|m: int| 0 <= m < 10 && turn_over_cards@[m] implies (#[trigger] old(
                    game_state,
                ).stacks@[m])@.len() > 0 by {
                    assert(old(game_state)@.stacks[m].len() > 0);
                }
            }
            let mut j: usize = 0;
            while j < 10
                invariant
                    j <= 10,
                    turn_over_cards@.len() == 10,
                    game_state.stacks@.len() == 10,
                    forall|m: int|
                        0 <= m < 10 && turn_over_cards@[m] ==> (#[trigger] old(
                            game_state,
                        ).stacks@[m])@.len() > 0,
                    game_state.deck@ == old(game_state).deck@,
                    game_state.completed_stacks == old(game_state).completed_stacks,
                    game_state.rng == old(game_state).rng,
                    forall|m: int|
                        j <= m < 10 ==> game_state.stacks@[m] == old(game_state).stacks@[m],
                    forall|m: int|
                        0 <= m < j ==> (#[trigger] game_state.stacks@[m])@ == (if turn_over_cards@[m] {
                            set_top_face(old(game_state).stacks@[m]@, false)
                        } else {
                            old(game_state).stacks@[m]@
                        }),
                decreases 10 - j,
            {
                if turn_over_cards[j] {
                    let n = game_state.stacks[j].len();
                    game_state.stacks[j][n - 1].is_facing_up = false;
                    proof {
                        assert(game_state.stacks@[j as int]@ =~= set_top_face(
                            old(game_state).stacks@[j as int]@,
                            false,
                        ));
                    }
                }
                j += 1;
            }
            let ghost mid = game_state.stacks@;
            let dl = game_state.deck.len();
            let dealt = game_state.deck.split_off(dl - 10);
            let mut i: usize = 0;
            while i < 10
                invariant
                    i <= 10,
                    game_state.stacks@.len() == 10,
                    mid.len() == 10,
                    dealt@.len() == 10,
                    dealt@ == old(game_state).deck@.subrange(
                        old(game_state).deck@.len() - 10,
                        old(game_state).deck@.len() as int,
                    ),
                    game_state.deck@ == old(game_state).deck@.take(old(game_state).deck@.len() - 10),
                    game_state.completed_stacks == old(game_state).completed_stacks,
                    game_state.rng == old(game_state).rng,
                    forall|m: int| i <= m < 10 ==> game_state.stacks@[m] == mid[m],
                    forall|m: int|
                        0 <= m < i ==> (#[trigger] game_state.stacks@[m])@ == mid[m]@.push(
                            face_up_card(dealt@[m]),
                        ),
                decreases 10 - i,
            {
                let mut c = dealt[i];
                c.is_facing_up = true;
                game_state.stacks[i].push(c);
                i += 1;
            }
            proof {
                assert(game_state@.stacks =~~= spec_undo_cheat(old(game_state)@, *cheat).stacks);
                assert(game_state@ =~~= spec_undo_cheat(old(game_state)@, *cheat));
            }
        },
        Cheat::AddAnotherDeck { prev_rng_state, next_rng_state: _, deck } => {
            game_state.rng = rng_clone(&**prev_rng_state);
            let total = deck.len();
            let rem = total % 10;
            proof {
                assert forall|m: int| 10 - rem <= m < 10 implies (#[trigger] old(
                    game_state,
                ).stacks@[m])@.len() > 0 by {
                    assert(old(game_state)@.stacks[m].len() > 0);
                }
            }
            let mut i: usize = 0;
            while i < rem
                invariant
                    i <= rem,
                    rem == deck@.len() % 10,
                    rem < 10,
                    deck@.len() == 26,
                    game_state.stacks@.len() == 10,
                    forall|m: int|
                        10 - rem <= m < 10 ==> (#[trigger] old(game_state).stacks@[m])@.len() > 0,
                    game_state.rng == **prev_rng_state,
                    game_state.deck@ == old(game_state).deck@,
                    game_state.completed_stacks == old(game_state).completed_stacks,
                    forall|m: int|
                        0 <= m < 10 - i ==> game_state.stacks@[m] == old(game_state).stacks@[m],
                    forall|m: int|
                        10 - i <= m < 10 ==> (#[trigger] game_state.stacks@[m])@ == old(
                            game_state,
                        ).stacks@[m]@.drop_last(),
                decreases rem - i,
            {
                let _ = game_state.stacks[9 - i].pop();
                i += 1;
            }
            let dl = game_state.deck.len();
            game_state.deck.truncate(dl - (total - rem));
            proof {
                assert(game_state@.stacks =~~= spec_undo_cheat(old(game_state)@, *cheat).stacks);
                assert(game_state@ =~~= spec_undo_cheat(old(game_state)@, *cheat));
            }
        },
    }
}

pub open spec fn spec_undo_cheat(t: Table, c: Cheat) -> Table {
    match c {
        Cheat::RedealStacks { cards, suit, prev_rng_state, next_rng_state } => spec_undo_redeal(
            t,
            cards@,
            suit,
            *prev_rng_state,
        ),
        Cheat::HarvestTopRow { turn_over_cards } => spec_undo_harvest(t, turn_over_cards@),
        Cheat::AddAnotherDeck { prev_rng_state, next_rng_state, deck } => spec_undo_adddeck(
            t,
            deck@,
            *prev_rng_state,
        ),
    }
}

} // verus!
