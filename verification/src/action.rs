//! Table state and the reversible action log.
//!
//! A [`GameState`] owns the ten stacks, the stock pile, the completed suits
//! and the generator snapshot. Its mathematical model is the ghost [`Table`];
//! every transition of the engine is stated as a spec function over `Table`
//! and the executable code is proved to realise exactly that transition.

use vstd::multiset::Multiset;
use vstd::prelude::*;

use crate::cards::{
    lemma_chain_cards, lemma_top_run_char, top_run, top_run_len, topmost_run, Card, CardRange,
    Suit,
};
use crate::cheats::{cheat_fits, cheat_undo_fits, spec_apply_cheat, spec_undo_cheat, Cheat};
use crate::rng::{rng_clone, rng_eq, rng_from_os, SpiderRand};

verus! {

/// Mathematical model of the whole table.
#[verifier::ext_equal]
pub ghost struct Table {
    pub stacks: Seq<Seq<Card>>,
    pub deck: Seq<Card>,
    pub completed: Seq<Suit>,
    pub rng: SpiderRand,
}

pub open spec fn total_stack_len(stacks: Seq<Seq<Card>>) -> int
    decreases stacks.len(),
{
    if stacks.len() == 0 {
        0
    } else {
        total_stack_len(stacks.drop_last()) + stacks.last().len()
    }
}

impl Table {
    pub open spec fn wf(self) -> bool {
        self.stacks.len() == 10
    }

    /// Total number of cards in play, a completed suit counting as its
    /// thirteen cards.
    pub open spec fn card_count(self) -> int {
        total_stack_len(self.stacks) + self.deck.len() + 13 * self.completed.len()
    }

    /// Every non-empty stack shows its top card face-up.
    pub open spec fn tops_face_up(self) -> bool {
        forall|i: int|
            0 <= i < self.stacks.len() && (#[trigger] self.stacks[i]).len() > 0
                ==> self.stacks[i].last().is_facing_up
    }
}

/// Two tables hold the same stacks, stock, foundations and generator state.
pub open spec fn table_eq(a: Table, b: Table) -> bool {
    &&& a.stacks.len() == b.stacks.len()
    &&& forall|i: int| 0 <= i < a.stacks.len() ==> a.stacks[i] == #[trigger] b.stacks[i]
    &&& a.deck == b.deck
    &&& a.completed == b.completed
    &&& a.rng == b.rng
}

pub proof fn lemma_table_eq_is_eq(a: Table, b: Table)
    requires
        table_eq(a, b),
    ensures
        a == b,
{
    assert(a.stacks =~= b.stacks);
    assert(a =~= b);
}

/// The same card turned face-up.
pub open spec fn face_up_card(c: Card) -> Card {
    Card { is_facing_up: true, ..c }
}

/// The stack with the orientation of its top card replaced.
pub open spec fn set_top_face(s: Seq<Card>, up: bool) -> Seq<Card> {
    s.update(s.len() - 1, Card { is_facing_up: up, ..s.last() })
}

/// The full thirteen-card face-up run of one suit, king at the bottom.
pub open spec fn full_run(suit: Suit) -> CardRange {
    CardRange { suit, high: 12, low: 0, is_facing_up: true }
}

/// A reversible transition of the table. A value records everything its own
/// undo needs, and is never mutated after creation.
pub enum Action {
    Move { range: CardRange, flip_card: bool, from: usize, to: usize },
    Deal,
    RemoveFullStack { suit: Suit, stack: usize, flip_card: bool },
    Cheat(Cheat),
}

/// The whole table state: ten tableau stacks (bottom to top), the stock
/// pile, the completed suits, and the owned generator snapshot.
pub struct GameState {
    pub stacks: Vec<Vec<Card>>,
    pub deck: Vec<Card>,
    pub completed_stacks: Vec<Suit>,
    pub rng: SpiderRand,
}

impl View for GameState {
    type V = Table;

    open spec fn view(&self) -> Table {
        Table {
            stacks: Seq::new(self.stacks@.len(), |i: int| self.stacks@[i]@),
            deck: self.deck@,
            completed: self.completed_stacks@,
            rng: self.rng,
        }
    }
}

// ---------------------------------------------------------------------------
// What a legally constructed action looks like, and what applying it does.
// ---------------------------------------------------------------------------

/// The recorded card below the moved run must be face-down exactly when the
/// action says it will be flipped.
pub open spec fn move_flip_spec(t: Table, from: int, klen: int) -> bool {
    klen < t.stacks[from].len() && !t.stacks[from][t.stacks[from].len() - klen
        - 1].is_facing_up
}

/// A `Move` action as `move_from_to` constructs it: the range is exactly the
/// top of the source stack and the flip flag reflects the card it uncovers.
pub open spec fn move_fits(t: Table, range: CardRange, flip: bool, from: int, to: int) -> bool {
    &&& t.wf()
    &&& 0 <= from < 10
    &&& 0 <= to < 10
    &&& from != to
    &&& range.low <= range.high
    &&& range.spec_len() <= t.stacks[from].len()
    &&& t.stacks[from].subrange(
        t.stacks[from].len() - range.spec_len(),
        t.stacks[from].len() as int,
    ) == range.cards_seq()
    &&& flip <==> move_flip_spec(t, from, range.spec_len())
}

pub open spec fn deal_fits(t: Table) -> bool {
    &&& t.wf()
    &&& t.deck.len() >= 10
}

/// A `RemoveFullStack` action as the cascade constructs it: the top thirteen
/// cards of the stack are the full face-up run of `suit`.
pub open spec fn complete_fits(t: Table, suit: Suit, stack: int, flip: bool) -> bool {
    &&& t.wf()
    &&& 0 <= stack < 10
    &&& t.stacks[stack].len() >= 13
    &&& t.stacks[stack].subrange(t.stacks[stack].len() - 13, t.stacks[stack].len() as int)
        == full_run(suit).cards_seq()
    &&& flip <==> move_flip_spec(t, stack, 13)
}

/// The action's recorded parameters match the table it is applied to.
pub open spec fn action_fits(a: Action, t: Table) -> bool {
    match a {
        Action::Move { range, flip_card, from, to } => move_fits(
            t,
            range,
            flip_card,
            from as int,
            to as int,
        ),
        Action::Deal => deal_fits(t),
        Action::RemoveFullStack { suit, stack, flip_card } => complete_fits(
            t,
            suit,
            stack as int,
            flip_card,
        ),
        Action::Cheat(c) => cheat_fits(c, t),
    }
}

/// What undoing the action needs of the table it is undone on.
pub open spec fn action_undo_fits(a: Action, t: Table) -> bool {
    match a {
        Action::Move { range, flip_card, from, to } => {
            &&& t.wf()
            &&& 0 <= from < 10
            &&& 0 <= to < 10
            &&& from != to
            &&& range.low <= range.high
            &&& range.spec_len() <= t.stacks[to as int].len()
            &&& (flip_card ==> t.stacks[from as int].len() > 0)
        },
        Action::Deal => {
            &&& t.wf()
            &&& forall|i: int| 0 <= i < 10 ==> (#[trigger] t.stacks[i]).len() > 0
        },
        Action::RemoveFullStack { suit, stack, flip_card } => {
            &&& t.wf()
            &&& 0 <= stack < 10
            &&& t.completed.len() > 0
            &&& (flip_card ==> t.stacks[stack as int].len() > 0)
        },
        Action::Cheat(c) => cheat_undo_fits(c, t),
    }
}

pub open spec fn spec_apply_move(t: Table, range: CardRange, flip: bool, from: int, to: int) -> Table {
    let s1 = t.stacks.update(
        from,
        t.stacks[from].take(t.stacks[from].len() - range.spec_len()),
    );
    let s2 = s1.update(to, s1[to] + range.cards_seq());
    let s3 = if flip {
        s2.update(from, set_top_face(s2[from], true))
    } else {
        s2
    };
    Table { stacks: s3, ..t }
}

pub open spec fn spec_undo_move(t: Table, range: CardRange, flip: bool, from: int, to: int) -> Table {
    let s1 = if flip {
        t.stacks.update(from, set_top_face(t.stacks[from], false))
    } else {
        t.stacks
    };
    let s2 = s1.update(to, s1[to].take(s1[to].len() - range.spec_len()));
    let s3 = s2.update(from, s2[from] + range.cards_seq());
    Table { stacks: s3, ..t }
}

pub open spec fn spec_apply_deal(t: Table) -> Table {
    let n = t.deck.len();
    let dealt = t.deck.subrange(n - 10, n as int);
    Table {
        deck: t.deck.take(n - 10),
        stacks: Seq::new(t.stacks.len(), |i: int| t.stacks[i].push(face_up_card(dealt[i]))),
        ..t
    }
}

pub open spec fn spec_undo_deal(t: Table) -> Table {
    Table {
        stacks: Seq::new(t.stacks.len(), |i: int| t.stacks[i].drop_last()),
        deck: t.deck + Seq::new(t.stacks.len(), |i: int| t.stacks[i].last()),
        ..t
    }
}

pub open spec fn spec_apply_complete(t: Table, suit: Suit, stack: int, flip: bool) -> Table {
    let s1 = t.stacks.update(stack, t.stacks[stack].take(t.stacks[stack].len() - 13));
    let s2 = if flip {
        s1.update(stack, set_top_face(s1[stack], true))
    } else {
        s1
    };
    Table { stacks: s2, completed: t.completed.push(suit), ..t }
}

pub open spec fn spec_undo_complete(t: Table, suit: Suit, stack: int, flip: bool) -> Table {
    let s1 = if flip {
        t.stacks.update(stack, set_top_face(t.stacks[stack], false))
    } else {
        t.stacks
    };
    let s2 = s1.update(stack, s1[stack] + full_run(suit).cards_seq());
    Table { stacks: s2, completed: t.completed.drop_last(), ..t }
}

pub open spec fn spec_apply_action(t: Table, a: Action) -> Table {
    match a {
        Action::Move { range, flip_card, from, to } => spec_apply_move(
            t,
            range,
            flip_card,
            from as int,
            to as int,
        ),
        Action::Deal => spec_apply_deal(t),
        Action::RemoveFullStack { suit, stack, flip_card } => spec_apply_complete(
            t,
            suit,
            stack as int,
            flip_card,
        ),
        Action::Cheat(c) => spec_apply_cheat(t, c),
    }
}

pub open spec fn spec_undo_action(t: Table, a: Action) -> Table {
    match a {
        Action::Move { range, flip_card, from, to } => spec_undo_move(
            t,
            range,
            flip_card,
            from as int,
            to as int,
        ),
        Action::Deal => spec_undo_deal(t),
        Action::RemoveFullStack { suit, stack, flip_card } => spec_undo_complete(
            t,
            suit,
            stack as int,
            flip_card,
        ),
        Action::Cheat(c) => spec_undo_cheat(t, c),
    }
}

/// The result of `can_move_to`: `None` when no part of the topmost run of
/// `from` may go to `to`, otherwise exactly the movable suffix of that run.
pub open spec fn can_move_spec(t: Table, from: int, to: int) -> Option<CardRange> {
    if from == to {
        None
    } else if t.stacks[from].len() == 0 {
        None
    } else {
        let g = top_run(t.stacks[from]);
        if t.stacks[to].len() == 0 {
            Some(g)
        } else {
            let tc = t.stacks[to].last();
            if tc.rank >= 1 && g.low <= tc.rank - 1 <= g.high {
                Some(
                    CardRange {
                        suit: g.suit,
                        high: (tc.rank - 1) as u8,
                        low: g.low,
                        is_facing_up: g.is_facing_up,
                    },
                )
            } else {
                None
            }
        }
    }
}

/// Whatever `can_move_spec` returns covers exactly the cards now lying on
/// top of the source stack.
pub proof fn lemma_can_move_matches_stack(t: Table, from: int, to: int)
    requires
        t.wf(),
        0 <= from < 10,
        0 <= to < 10,
        can_move_spec(t, from, to) is Some,
    ensures
        ({
            let g = can_move_spec(t, from, to)->0;
            &&& g.low <= g.high
            &&& g.spec_len() <= t.stacks[from].len()
            &&& t.stacks[from].subrange(
                t.stacks[from].len() - g.spec_len(),
                t.stacks[from].len() as int,
            ) == g.cards_seq()
        }),
{
    let s = t.stacks[from];
    let k = top_run_len(s);
    lemma_top_run_char(s);
    lemma_chain_cards(s, s.len() - k, s.len() as int);
    let run = top_run(s);
    let g = can_move_spec(t, from, to)->0;
    assert(run.high - run.low == k - 1);
    assert(g.low == run.low && g.high <= run.high);
    let gl = g.spec_len();
    assert forall|m: int| 0 <= m < gl implies s.subrange(s.len() - gl, s.len() as int)[m]
        == g.cards_seq()[m] by {
        let p = s.len() - gl + m;
        assert(s[p] == (Card {
            suit: s[s.len() - k].suit,
            rank: (s[s.len() - k].rank - (p - (s.len() - k))) as u8,
            is_facing_up: s[s.len() - k].is_facing_up,
        }));
    }
    assert(s.subrange(s.len() - gl, s.len() as int) =~= g.cards_seq());
}

/// A card the two-suit variant actually deals.
pub open spec fn playable_card(c: Card) -> bool {
    c.rank < 13 && (c.suit == Suit::Clubs || c.suit == Suit::Hearts)
}

/// The same card face-down: its identity, orientation set aside.
pub open spec fn card_identity(c: Card) -> Card {
    Card { is_facing_up: false, ..c }
}

/// The cards of one pile, orientation set aside.
pub open spec fn pile_identities(s: Seq<Card>) -> Seq<Card> {
    s.map_values(|c: Card| card_identity(c))
}

/// The identities of every card lying on the stacks.
pub open spec fn stacks_card_multiset(stacks: Seq<Seq<Card>>) -> Multiset<Card>
    decreases stacks.len(),
{
    if stacks.len() == 0 {
        Multiset::<Card>::empty()
    } else {
        stacks_card_multiset(stacks.drop_last()).add(
            pile_identities(stacks.last()).to_multiset(),
        )
    }
}

/// The identities of every card on the table: stacks and stock together.
pub open spec fn table_card_multiset(t: Table) -> Multiset<Card> {
    stacks_card_multiset(t.stacks).add(pile_identities(t.deck).to_multiset())
}

/// The thirteen card identities a completed suit stands for.
pub open spec fn suit_run_identities(suit: Suit) -> Seq<Card> {
    pile_identities(full_run(suit).cards_seq())
}

/// The card identities the foundations stand for.
pub open spec fn completed_card_multiset(cs: Seq<Suit>) -> Multiset<Card>
    decreases cs.len(),
{
    if cs.len() == 0 {
        Multiset::<Card>::empty()
    } else {
        completed_card_multiset(cs.drop_last()).add(suit_run_identities(cs.last()).to_multiset())
    }
}

/// Every card in play, by identity: the stacks, the stock, and the cards
/// the foundations stand for.
pub open spec fn all_cards_multiset(t: Table) -> Multiset<Card> {
    table_card_multiset(t).add(completed_card_multiset(t.completed))
}

/// The hundred and four cards of a fresh deal, in build order: for each
/// rank, four clubs and four hearts interleaved, all face-down.
pub open spec fn full_deal_seq() -> Seq<Card> {
    Seq::new(
        104,
        |i: int|
            Card {
                suit: if i % 2 == 0 {
                    Suit::Clubs
                } else {
                    Suit::Hearts
                },
                rank: (i / 8) as u8,
                is_facing_up: false,
            },
    )
}

/// Appending one stack adds its card identities to the multiset.
pub proof fn lemma_stacks_card_multiset_push(s: Seq<Seq<Card>>, x: Seq<Card>)
    ensures
        stacks_card_multiset(s.push(x)) == stacks_card_multiset(s).add(
            pile_identities(x).to_multiset(),
        ),
{
    assert(s.push(x).drop_last() =~= s);
    assert(s.push(x).last() == x);
}

/// A pile of face-down cards is its own identity sequence.
pub proof fn lemma_pile_identities_face_down(s: Seq<Card>)
    requires
        forall|j: int| 0 <= j < s.len() ==> !(#[trigger] s[j]).is_facing_up,
    ensures
        pile_identities(s) == s,
{
    assert(pile_identities(s) =~= s);
}

/// Appending one stack adds its length to the total.
pub proof fn lemma_total_stack_len_push(s: Seq<Seq<Card>>, x: Seq<Card>)
    ensures
        total_stack_len(s.push(x)) == total_stack_len(s) + x.len(),
{
    assert(s.push(x).drop_last() =~= s);
    assert(s.push(x).last() == x);
}

/// Two sequences with equal multisets hold the same elements.
pub proof fn lemma_multiset_transfer(a: Seq<Card>, b: Seq<Card>)
    requires
        a.to_multiset() == b.to_multiset(),
    ensures
        forall|j: int| 0 <= j < b.len() ==> a.contains(#[trigger] b[j]),
{
    broadcast use vstd::seq_lib::group_to_multiset_ensures;

    assert forall|j: int| 0 <= j < b.len() implies a.contains(#[trigger] b[j]) by {
        assert(b.contains(b[j]));
        assert(b.to_multiset().count(b[j]) > 0);
    }
}

impl GameState {
    pub open spec fn wf(self) -> bool {
        self@.wf()
    }

    /// Deal a fresh game: shuffle the hundred and four face-down cards of
    /// eight copies of each rank in the two playable suits, lay out four
    /// stacks of six and six stacks of five, turn each stack's top card
    /// face-up, and keep the remaining fifty cards as the stock. The
    /// snapshot generator is seeded anew from the operating system.
    pub fn init(rand: &mut rand::rngs::ThreadRng) -> (g: GameState)
        ensures
            g.wf(),
            g@.completed.len() == 0,
            g@.deck.len() == 50,
            forall|i: int| 0 <= i < 4 ==> (#[trigger] g@.stacks[i]).len() == 6,
            forall|i: int| 4 <= i < 10 ==> (#[trigger] g@.stacks[i]).len() == 5,
            forall|i: int| 0 <= i < 10 ==> (#[trigger] g@.stacks[i]).last().is_facing_up,
            forall|i: int, j: int|
                0 <= i < 10 && 0 <= j < g@.stacks[i].len() - 1 ==> !(#[trigger] g@.stacks[i][j]).is_facing_up,
            forall|i: int, j: int|
                0 <= i < 10 && 0 <= j < g@.stacks[i].len() ==> playable_card(
                    #[trigger] g@.stacks[i][j],
                ),
            forall|j: int|
                0 <= j < 50 ==> playable_card(#[trigger] g@.deck[j]) && !g@.deck[j].is_facing_up,
            g@.card_count() == 104,
            g@.tops_face_up(),
            table_card_multiset(g@) == full_deal_seq().to_multiset(),
    {
        let mut all_cards: Vec<Card> = Vec::new();
        let mut r: u8 = 0;
        while r < 13
            invariant
                r <= 13,
                all_cards@.len() == 8 * r as int,
                forall|j: int|
                    0 <= j < all_cards@.len() ==> #[trigger] all_cards@[j] == full_deal_seq()[j],
            decreases 13 - r,
        {
            let mut c: usize = 0;
            while c < 4
                invariant
                    c <= 4,
                    r < 13,
                    all_cards@.len() == 8 * r as int + 2 * c as int,
                    forall|j: int|
                        0 <= j < all_cards@.len() ==> #[trigger] all_cards@[j]
                            == full_deal_seq()[j],
                decreases 4 - c,
            {
                all_cards.push(Card { suit: Suit::Clubs, rank: r, is_facing_up: false });
                all_cards.push(Card { suit: Suit::Hearts, rank: r, is_facing_up: false });
                proof {
                    let j0 = 8 * (r as int) + 2 * (c as int);
                    assert(j0 % 2 == 0 && j0 / 8 == r as int && (j0 + 1) % 2 == 1 && (j0 + 1) / 8
                        == r as int) by (nonlinear_arith)
                        requires
                            0 <= c < 4,
                            0 <= r < 13,
                            j0 == 8 * (r as int) + 2 * (c as int),
                    ;
                    assert(all_cards@[j0] == full_deal_seq()[j0]);
                    assert(all_cards@[j0 + 1] == full_deal_seq()[j0 + 1]);
                }
                c += 1;
            }
            r += 1;
        }
        proof {
            assert(all_cards@ =~= full_deal_seq());
            assert forall|j: int| 0 <= j < all_cards@.len() implies playable_card(
                #[trigger] all_cards@[j],
            ) && !all_cards@[j].is_facing_up by {
                assert(all_cards@[j] == full_deal_seq()[j]);
            }
        }
        let ghost fresh = all_cards@;
        crate::rng::shuffle_cards_thread(rand, &mut all_cards);
        proof {
            lemma_multiset_transfer(fresh, all_cards@);
            assert forall|j: int| 0 <= j < all_cards@.len() implies playable_card(
                #[trigger] all_cards@[j],
            ) && !all_cards@[j].is_facing_up by {
                assert(fresh.contains(all_cards@[j]));
                let i = choose|i: int| 0 <= i < fresh.len() && fresh[i] == all_cards@[j];
                assert(playable_card(fresh[i]));
            }
        }
        let mut deck: Vec<Card> = Vec::new();
        let mut i: usize = 0;
        while i < 50
            invariant
                i <= 50,
                all_cards@.len() == 104,
                deck@ == all_cards@.take(i as int),
                forall|j: int|
                    0 <= j < all_cards@.len() ==> playable_card(#[trigger] all_cards@[j])
                        && !all_cards@[j].is_facing_up,
            decreases 50 - i,
        {
            deck.push(all_cards[i]);
            proof {
                assert(deck@ =~= all_cards@.take(i + 1));
            }
            i += 1;
        }
        let mut stacks: Vec<Vec<Card>> = Vec::new();
        let mut start: usize = 50;
        let mut s: usize = 0;
        proof {
            broadcast use vstd::seq_lib::group_to_multiset_ensures;
            broadcast use vstd::multiset::group_multiset_axioms;
            broadcast use vstd::multiset::lemma_multiset_empty_len;

            assert(Seq::new(0nat, |m: int| stacks@[m]@) =~= Seq::<Seq<Card>>::empty());
            assert(all_cards@.subrange(50, 50) =~= Seq::<Card>::empty());
            assert(Seq::<Card>::empty().to_multiset().len() == 0);
            assert(Seq::<Card>::empty().to_multiset() =~= Multiset::<Card>::empty());
        }
        while s < 10
            invariant
                s <= 10,
                stacks@.len() == s,
                all_cards@.len() == 104,
                start == 50 + (if s <= 4 {
                    6 * s as int
                } else {
                    4 + 5 * s as int
                }),
                start <= 104,
                forall|j: int|
                    0 <= j < all_cards@.len() ==> playable_card(#[trigger] all_cards@[j])
                        && !all_cards@[j].is_facing_up,
                total_stack_len(Seq::new(s as nat, |m: int| stacks@[m]@)) == start - 50,
                stacks_card_multiset(Seq::new(s as nat, |m: int| stacks@[m]@))
                    == all_cards@.subrange(50, start as int).to_multiset(),
                forall|m: int|
                    0 <= m < s ==> (#[trigger] stacks@[m])@.len() == (if m < 4 {
                        6int
                    } else {
                        5int
                    }),
                forall|m: int| 0 <= m < s ==> (#[trigger] stacks@[m])@.last().is_facing_up,
                forall|m: int, j: int|
                    0 <= m < s && 0 <= j < stacks@[m]@.len() - 1 ==> !(#[trigger] stacks@[m]@[j]).is_facing_up,
                forall|m: int, j: int|
                    0 <= m < s && 0 <= j < stacks@[m]@.len() ==> playable_card(
                        #[trigger] stacks@[m]@[j],
                    ),
            decreases 10 - s,
        {
            let cnt: usize = if s < 4 {
                6
            } else {
                5
            };
            let mut st: Vec<Card> = Vec::new();
            let mut j: usize = 0;
            while j < cnt
                invariant
                    j <= cnt,
                    cnt <= 6,
                    start + cnt <= 104,
                    all_cards@.len() == 104,
                    st@ == all_cards@.subrange(start as int, start + j),
                    forall|m: int|
                        0 <= m < all_cards@.len() ==> playable_card(#[trigger] all_cards@[m])
                            && !all_cards@[m].is_facing_up,
                decreases cnt - j,
            {
                st.push(all_cards[start + j]);
                proof {
                    assert(st@ =~= all_cards@.subrange(start as int, start + j + 1));
                }
                j += 1;
            }
            let n = st.len();
            st[n - 1].is_facing_up = true;
            proof {
                let prev = Seq::new(s as nat, |m: int| stacks@[m]@);
                lemma_total_stack_len_push(prev, st@);
                lemma_stacks_card_multiset_push(prev, st@);
                assert(Seq::new((s + 1) as nat, |m: int| stacks@.push(st)[m]@) =~= prev.push(st@));
                assert(pile_identities(st@) =~= all_cards@.subrange(start as int, start + cnt));
                vstd::seq_lib::lemma_multiset_commutative(
                    all_cards@.subrange(50, start as int),
                    all_cards@.subrange(start as int, start + cnt),
                );
                assert(all_cards@.subrange(50, start as int) + all_cards@.subrange(
                    start as int,
                    start + cnt,
                ) =~= all_cards@.subrange(50, start + cnt));
            }
            stacks.push(st);
            start += cnt;
            s += 1;
        }
        let g = GameState { stacks, deck, completed_stacks: Vec::new(), rng: rng_from_os() };
        proof {
            broadcast use vstd::multiset::group_multiset_axioms;

            assert(g@.stacks =~= Seq::new(10, |m: int| g.stacks@[m]@));
            assert(total_stack_len(g@.stacks) == 54);
            lemma_pile_identities_face_down(g@.deck);
            assert(stacks_card_multiset(g@.stacks) == all_cards@.subrange(50, 104).to_multiset());
            vstd::seq_lib::lemma_multiset_commutative(
                all_cards@.take(50),
                all_cards@.subrange(50, 104),
            );
            assert(all_cards@.take(50) + all_cards@.subrange(50, 104) =~= all_cards@);
            assert(all_cards@.to_multiset() == full_deal_seq().to_multiset());
            assert(table_card_multiset(g@) =~= full_deal_seq().to_multiset());
        }
        g
    }

    /// Check the structural invariant: exactly ten stacks.
    pub fn check_wf(&self) -> (r: bool)
        ensures
            r == self.wf(),
    {
        self.stacks.len() == 10
    }

    /// Assemble a state from explicit parts, with a freshly seeded
    /// generator.
    pub fn new(stacks: Vec<Vec<Card>>, deck: Vec<Card>, completed_stacks: Vec<Suit>) -> (g:
        GameState)
        requires
            stacks@.len() == 10,
        ensures
            g.stacks == stacks,
            g.deck == deck,
            g.completed_stacks == completed_stacks,
            g.wf(),
    {
        GameState { stacks, deck, completed_stacks, rng: rng_from_os() }
    }

    /// The movable part of the topmost run of `from`, were it dropped on
    /// `to`: `None` when the stacks coincide, the source is empty, or no
    /// suffix of the source's topmost run continues the destination's top
    /// card; the whole topmost run when the destination is empty.
    pub fn can_move_to(&self, from: usize, to: usize) -> (r: Option<CardRange>)
        requires
            self.wf(),
            from < 10,
            to < 10,
        ensures
            r == can_move_spec(self@, from as int, to as int),
    {
        if from == to {
            return None;
        }
        let g = match topmost_run(&self.stacks[from]) {
            None => {
                return None;
            },
            Some(g) => g,
        };
        if self.stacks[to].len() == 0 {
            return Some(g);
        }
        let tc = self.stacks[to][self.stacks[to].len() - 1];
        if tc.rank >= 1 && g.contains_rank(tc.rank - 1) {
            Some(
                CardRange {
                    suit: g.suit,
                    high: tc.rank - 1,
                    low: g.low,
                    is_facing_up: g.is_facing_up,
                },
            )
        } else {
            None
        }
    }

    /// Build the `Move` action for a legal move, recording whether the card
    /// the move uncovers must be turned face-up.
    pub fn move_from_to(&self, from: usize, to: usize) -> (r: Option<Action>)
        requires
            self.wf(),
            from < 10,
            to < 10,
        ensures
            ({
                match can_move_spec(self@, from as int, to as int) {
                    None => r is None,
                    Some(g) => r == Some(
                        (Action::Move {
                            range: g,
                            flip_card: move_flip_spec(self@, from as int, g.spec_len()),
                            from,
                            to,
                        }),
                    ),
                }
            }),
            r is Some ==> action_fits(r->0, self@),
    {
        let moved = match self.can_move_to(from, to) {
            None => {
                return None;
            },
            Some(g) => g,
        };
        proof {
            lemma_can_move_matches_stack(self@, from as int, to as int);
        }
        let k = moved.len();
        let lf = self.stacks[from].len();
        let set_face_up = lf > k && !self.stacks[from][lf - k - 1].is_facing_up;
        Some(Action::Move { range: moved, flip_card: set_face_up, from, to })
    }

    /// Apply a recorded action. Legality was established when the action
    /// was built; application is unconditional and realises exactly the
    /// spec transition.
    pub fn apply_action(&mut self, action: &Action)
        requires
            action_fits(*action, old(self)@),
        ensures
            final(self)@ == spec_apply_action(old(self)@, *action),
    {
        match action {
            Action::Move { range, flip_card, from, to } => {
                let k = range.len();
                let lf = self.stacks[*from].len();
                self.stacks[*from].truncate(lf - k);
                let mut moved = range.cards();
                self.stacks[*to].append(&mut moved);
                if *flip_card {
                    let n = self.stacks[*from].len();
                    self.stacks[*from][n - 1].is_facing_up = true;
                }
                proof {
                    assert(self@.stacks =~~= spec_apply_action(old(self)@, *action).stacks);
                    assert(self@ =~~= spec_apply_action(old(self)@, *action));
                }
            },
            Action::Deal => {
                let n = self.deck.len();
                let dealt = self.deck.split_off(n - 10);
                let mut i: usize = 0;
                while i < 10
                    invariant
                        i <= 10,
                        self.stacks@.len() == 10,
                        dealt@.len() == 10,
                        dealt@ == old(self).deck@.subrange(
                            old(self).deck@.len() - 10,
                            old(self).deck@.len() as int,
                        ),
                        self.deck@ == old(self).deck@.take(old(self).deck@.len() - 10),
                        self.completed_stacks == old(self).completed_stacks,
                        self.rng == old(self).rng,
                        forall|j: int| i <= j < 10 ==> self.stacks@[j] == old(self).stacks@[j],
                        forall|j: int|
                            0 <= j < i ==> (#[trigger] self.stacks@[j])@ == old(
                                self,
                            ).stacks@[j]@.push(face_up_card(dealt@[j])),
                    decreases 10 - i,
                {
                    let mut c = dealt[i];
                    c.is_facing_up = true;
                    self.stacks[i].push(c);
                    i += 1;
                }
                proof {
                    assert(self@.stacks =~~= spec_apply_action(old(self)@, *action).stacks);
                    assert(self@ =~~= spec_apply_action(old(self)@, *action));
                }
            },
            Action::RemoveFullStack { suit, stack, flip_card } => {
                let ls = self.stacks[*stack].len();
                self.stacks[*stack].truncate(ls - 13);
                self.completed_stacks.push(*suit);
                if *flip_card {
                    let n = self.stacks[*stack].len();
                    self.stacks[*stack][n - 1].is_facing_up = true;
                }
                proof {
                    assert(self@.stacks =~~= spec_apply_action(old(self)@, *action).stacks);
                    assert(self@ =~~= spec_apply_action(old(self)@, *action));
                }
            },
            Action::Cheat(cheat) => {
                crate::cheats::apply_cheat(self, cheat);
            },
        }
    }

    /// Reverse a recorded action, restoring whatever its application
    /// changed, in the opposite order.
    pub fn undo_action(&mut self, action: &Action)
        requires
            action_undo_fits(*action, old(self)@),
        ensures
            final(self)@ == spec_undo_action(old(self)@, *action),
    {
        match action {
            Action::Move { range, flip_card, from, to } => {
                if *flip_card {
                    let n = self.stacks[*from].len();
                    self.stacks[*from][n - 1].is_facing_up = false;
                }
                let k = range.len();
                let lt = self.stacks[*to].len();
                self.stacks[*to].truncate(lt - k);
                let mut back = range.cards();
                self.stacks[*from].append(&mut back);
                proof {
                    assert(self@.stacks =~~= spec_undo_action(old(self)@, *action).stacks);
                    assert(self@ =~~= spec_undo_action(old(self)@, *action));
                }
            },
            Action::Deal => {
                proof {
                    assert forall|j: int| 0 <= j < 10 implies (#[trigger] old(
                        self,
                    ).stacks@[j])@.len() > 0 by {
                        assert(old(self)@.stacks[j].len() > 0);
                    }
                }
                let mut i: usize = 0;
                while i < 10
                    invariant
                        i <= 10,
                        self.stacks@.len() == 10,
                        forall|j: int|
                            0 <= j < 10 ==> (#[trigger] old(self).stacks@[j])@.len() > 0,
                        self.deck@ == old(self).deck@ + Seq::new(
                            i as nat,
                            |j: int| old(self).stacks@[j]@.last(),
                        ),
                        self.completed_stacks == old(self).completed_stacks,
                        self.rng == old(self).rng,
                        forall|j: int| i <= j < 10 ==> self.stacks@[j] == old(self).stacks@[j],
                        forall|j: int|
                            0 <= j < i ==> (#[trigger] self.stacks@[j])@ == old(
                                self,
                            ).stacks@[j]@.drop_last(),
                    decreases 10 - i,
                {
                    let c = self.stacks[i].pop().unwrap();
                    self.deck.push(c);
                    proof {
                        assert(self.deck@ =~= old(self).deck@ + Seq::new(
                            (i + 1) as nat,
                            |j: int| old(self).stacks@[j]@.last(),
                        ));
                    }
                    i += 1;
                }
                proof {
                    assert(self@.stacks =~~= spec_undo_action(old(self)@, *action).stacks);
                    assert(self@.deck =~~= spec_undo_action(old(self)@, *action).deck);
                    assert(self@ =~~= spec_undo_action(old(self)@, *action));
                }
            },
            Action::RemoveFullStack { suit, stack, flip_card } => {
                if *flip_card {
                    let n = self.stacks[*stack].len();
                    self.stacks[*stack][n - 1].is_facing_up = false;
                }
                let _ = self.completed_stacks.pop();
                let fr = CardRange { suit: *suit, high: 12, low: 0, is_facing_up: true };
                let mut back = fr.cards();
                self.stacks[*stack].append(&mut back);
                proof {
                    assert(self@.stacks =~~= spec_undo_action(old(self)@, *action).stacks);
                    assert(self@ =~~= spec_undo_action(old(self)@, *action));
                }
            },
            Action::Cheat(cheat) => {
                crate::cheats::undo_cheat(self, cheat);
            },
        }
    }

    /// An exact copy, generator state included.
    pub fn duplicate(&self) -> (g: GameState)
        ensures
            table_eq(g@, self@),
            g@ == self@,
    {
        let mut stacks: Vec<Vec<Card>> = Vec::new();
        let mut i: usize = 0;
        while i < self.stacks.len()
            invariant
                i <= self.stacks@.len(),
                stacks@.len() == i,
                forall|j: int| 0 <= j < i ==> stacks@[j]@ == self.stacks@[j]@,
            decreases self.stacks@.len() - i,
        {
            stacks.push(clone_cards(&self.stacks[i]));
            i += 1;
        }
        let g = GameState {
            stacks,
            deck: clone_cards(&self.deck),
            completed_stacks: clone_suits(&self.completed_stacks),
            rng: rng_clone(&self.rng),
        };
        proof {
            assert(g@.stacks =~~= self@.stacks);
            lemma_table_eq_is_eq(g@, self@);
        }
        g
    }

    /// Deep equality of two states: stacks, stock, foundations and
    /// generator state.
    pub fn same_as(&self, other: &GameState) -> (r: bool)
        ensures
            r == table_eq(self@, other@),
    {
        if self.stacks.len() != other.stacks.len() {
            return false;
        }
        let mut i: usize = 0;
        while i < self.stacks.len()
            invariant
                i <= self.stacks@.len(),
                self.stacks@.len() == other.stacks@.len(),
                forall|j: int| 0 <= j < i ==> self@.stacks[j] == #[trigger] other@.stacks[j],
            decreases self.stacks@.len() - i,
        {
            if !cards_eq(&self.stacks[i], &other.stacks[i]) {
                proof {
                    assert(self@.stacks[i as int] != other@.stacks[i as int]);
                }
                return false;
            }
            i += 1;
        }
        cards_eq(&self.deck, &other.deck) && suits_eq(&self.completed_stacks,
            &other.completed_stacks) && rng_eq(&self.rng, &other.rng)
    }
}

/// An element-by-element copy of a card vector.
pub fn clone_cards(v: &Vec<Card>) -> (r: Vec<Card>)
    ensures
        r@ == v@,
{
    let mut r: Vec<Card> = Vec::new();
    let mut i: usize = 0;
    while i < v.len()
        invariant
            i <= v@.len(),
            r@ == v@.take(i as int),
        decreases v@.len() - i,
    {
        r.push(v[i]);
        proof {
            assert(r@ =~= v@.take(i + 1));
        }
        i += 1;
    }
    proof {
        assert(v@.take(v@.len() as int) =~= v@);
    }
    r
}

/// An element-by-element copy of a suit vector.
pub fn clone_suits(v: &Vec<Suit>) -> (r: Vec<Suit>)
    ensures
        r@ == v@,
{
    let mut r: Vec<Suit> = Vec::new();
    let mut i: usize = 0;
    while i < v.len()
        invariant
            i <= v@.len(),
            r@ == v@.take(i as int),
        decreases v@.len() - i,
    {
        r.push(v[i]);
        proof {
            assert(r@ =~= v@.take(i + 1));
        }
        i += 1;
    }
    proof {
        assert(v@.take(v@.len() as int) =~= v@);
    }
    r
}

/// Element-by-element equality of two card vectors.
pub fn cards_eq(a: &Vec<Card>, b: &Vec<Card>) -> (r: bool)
    ensures
        r == (a@ == b@),
{
    if a.len() != b.len() {
        proof {
            assert(a@ != b@);
        }
        return false;
    }
    let mut i: usize = 0;
    while i < a.len()
        invariant
            i <= a@.len(),
            a@.len() == b@.len(),
            forall|j: int| 0 <= j < i ==> a@[j] == b@[j],
        decreases a@.len() - i,
    {
        if !(a[i] == b[i]) {
            proof {
                assert(a@[i as int] != b@[i as int]);
            }
            return false;
        }
        i += 1;
    }
    proof {
        assert(a@ =~= b@);
    }
    true
}

/// Element-by-element equality of two suit vectors.
pub fn suits_eq(a: &Vec<Suit>, b: &Vec<Suit>) -> (r: bool)
    ensures
        r == (a@ == b@),
{
    if a.len() != b.len() {
        proof {
            assert(a@ != b@);
        }
        return false;
    }
    let mut i: usize = 0;
    while i < a.len()
        invariant
            i <= a@.len(),
            a@.len() == b@.len(),
            forall|j: int| 0 <= j < i ==> a@[j] == b@[j],
        decreases a@.len() - i,
    {
        if !(a[i] == b[i]) {
            proof {
                assert(a@[i as int] != b@[i as int]);
            }
            return false;
        }
        i += 1;
    }
    proof {
        assert(a@ =~= b@);
    }
    true
}

} // verus!
