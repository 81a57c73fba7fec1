//! The engine's global laws: every legally built action is exactly
//! reversible; the topmost-run scan finds exactly the maximal descending
//! face-up suffix; every non-empty stack keeps a face-up top card; and no
//! transition invents, loses or alters a card — by count and by identity —
//! except the deck-injecting cheat, which adds exactly its recorded
//! twenty-six cards.

use vstd::assert_multisets_equal;
use vstd::prelude::*;

use crate::action::{
    action_fits, action_undo_fits, all_cards_multiset, card_identity, completed_card_multiset,
    pile_identities, set_top_face, spec_apply_action, spec_undo_action, stacks_card_multiset,
    suit_run_identities, Action, Table,
};
use vstd::multiset::Multiset;
use crate::cards::{linked, top_run_len, Card, Suit};
use crate::cards::lemma_top_run_len_unique;
use crate::cheats::{all_ranks_seq, rank_card, Cheat};
use crate::session::lemma_apply_count;

verus! {

/// Turning a face-down top card up and then down again leaves the stack as
/// it was.
proof fn lemma_set_top_round(s: Seq<Card>)
    requires
        s.len() > 0,
        !s.last().is_facing_up,
    ensures
        set_top_face(set_top_face(s, true), false) == s,
{
    assert(set_top_face(set_top_face(s, true), false) =~= s);
}

/// The extra hypothesis the round trip needs for a `Deal`: the ten cards
/// about to be dealt are already face-up. (Dealing forces its cards face-up,
/// and undo returns them to the stock as they then are, so a deal of
/// face-down stock cards comes back face-up.)
pub open spec fn deal_restores(t: Table) -> bool {
    forall|j: int| t.deck.len() - 10 <= j < t.deck.len() ==> (#[trigger] t.deck[j]).is_facing_up
}

/// The extra hypothesis the round trip needs for the harvest cheat: every
/// stack top is face-up — an invariant of every reachable table, since each
/// transition leaves every non-empty stack with a face-up top.
pub open spec fn harvest_restores(t: Table, a: Action) -> bool {
    match a {
        Action::Cheat(Cheat::HarvestTopRow { .. }) => t.tops_face_up(),
        _ => true,
    }
}

/// Round trip: an action legally constructed from a table can be undone on
/// the table it produces, and undoing restores the starting table exactly —
/// stacks, stock, foundations and generator state.
pub proof fn lemma_action_round_trip(t: Table, a: Action)
    requires
        action_fits(a, t),
        a is Deal ==> deal_restores(t),
        harvest_restores(t, a),
    ensures
        action_undo_fits(a, spec_apply_action(t, a)),
        spec_undo_action(spec_apply_action(t, a), a) == t,
{
    let t2 = spec_apply_action(t, a);
    let t3 = spec_undo_action(t2, a);
    match a {
        Action::Move { range, flip_card, from, to } => {
            let f = from as int;
            let o = to as int;
            let s = t.stacks[f];
            let k = range.spec_len();
            assert(t2.stacks[o].take(t2.stacks[o].len() - k) =~= t.stacks[o]);
            if flip_card {
                lemma_set_top_round(s.take(s.len() - k));
            }
            assert(t3.stacks[f] =~= s) by {
                assert(s.take(s.len() - k) + range.cards_seq() =~= s);
            }
            assert(t3.stacks =~~= t.stacks);
            assert(t3 =~~= t);
        },
        Action::Deal => {
            let n = t.deck.len();
            assert forall|i: int| 0 <= i < 10 implies t3.stacks[i] == t.stacks[i] by {
                assert(t2.stacks[i].drop_last() =~= t.stacks[i]);
            }
            assert(t3.deck =~= t.deck) by {
                assert forall|j: int| 0 <= j < n implies t3.deck[j] == t.deck[j] by {
                    if j >= n - 10 {
                        assert(t2.stacks[j - (n - 10)].last() == crate::action::face_up_card(
                            t.deck[j],
                        ));
                    }
                }
            }
            assert(t3.stacks =~~= t.stacks);
            assert(t3 =~~= t);
        },
        Action::RemoveFullStack { suit, stack, flip_card } => {
            let i = stack as int;
            let s = t.stacks[i];
            if flip_card {
                lemma_set_top_round(s.take(s.len() - 13));
            }
            assert(t3.completed =~= t.completed);
            assert(t3.stacks[i] =~= s) by {
                assert(s.take(s.len() - 13) + crate::action::full_run(suit).cards_seq() =~= s);
            }
            assert(t3.stacks =~~= t.stacks);
            assert(t3 =~~= t);
        },
        Action::Cheat(c) => {
            match c {
                Cheat::RedealStacks { cards, suit, prev_rng_state, next_rng_state } => {
                    assert(t3.completed =~= t.completed) by {
                        assert(t.completed.drop_last().push(t.completed.last()) =~= t.completed);
                    }
                    assert(t3.deck =~= t.deck);
                    assert forall|i: int| 0 <= i < 10 implies t3.stacks[i] == t.stacks[i] by {
                        if i < 3 {
                            assert(t2.stacks[i].drop_last() =~= t.stacks[i]);
                        }
                    }
                    assert(t3.stacks =~~= t.stacks);
                    assert(t3 =~~= t);
                },
                Cheat::HarvestTopRow { turn_over_cards } => {
                    let n = t.deck.len();
                    assert(t3.deck =~= t.deck);
                    assert forall|i: int| 0 <= i < 10 implies t3.stacks[i] == t.stacks[i] by {
                        let popped = t.stacks[i].drop_last();
                        if turn_over_cards@[i] {
                            lemma_set_top_round(popped);
                            assert(set_top_face(set_top_face(popped, true), false) == popped);
                        }
                        assert(t2.deck[n + i] == t.stacks[i].last());
                        assert(crate::action::face_up_card(t.stacks[i].last())
                            == t.stacks[i].last());
                        assert(t3.stacks[i] =~= popped.push(t.stacks[i].last()));
                        assert(popped.push(t.stacks[i].last()) =~= t.stacks[i]);
                    }
                    assert(t3.stacks =~~= t.stacks);
                    assert(t3 =~~= t);
                },
                Cheat::AddAnotherDeck { prev_rng_state, next_rng_state, deck } => {
                    assert(t3.deck =~= t.deck);
                    assert forall|i: int| 0 <= i < 10 implies t3.stacks[i] == t.stacks[i] by {
                        if i >= 4 {
                            assert(t2.stacks[i].drop_last() =~= t.stacks[i]);
                        }
                    }
                    assert forall|j: int| 4 <= j < 10 implies (#[trigger] t2.stacks[j]).len() > 0
                        && t2.stacks[j].last() == deck@[9 - j] by {}
                    assert(t3.stacks =~~= t.stacks);
                    assert(t3 =~~= t);
                },
            }
        },
    }
}

/// Grouping correctness: where the top `k` cards are face-up, share one
/// suit, and descend in rank one by one, and the card below (if any) is
/// face-down or breaks suit or rank order, the topmost run has length
/// exactly `k`.
pub proof fn lemma_topmost_run_length(s: Seq<Card>, k: int)
    requires
        1 <= k <= s.len(),
        forall|m: int| s.len() - k <= m < s.len() ==> (#[trigger] s[m]).is_facing_up,
        forall|m: int|
            s.len() - k < m < s.len() ==> (#[trigger] s[m]).suit == s[m - 1].suit && s[m].rank + 1
                == s[m - 1].rank,
        k == s.len() || !linked(s[s.len() - k - 1], s[s.len() - k]),
    ensures
        top_run_len(s) == k,
{
    lemma_top_run_len_unique(s, k);
}

/// Every non-empty stack keeps a face-up top card across every transition:
/// the condition `harvest_restores` asks for is an invariant, established by
/// a fresh deal and preserved by every legally built action.
pub proof fn lemma_tops_face_up_preserved(t: Table, a: Action)
    requires
        action_fits(a, t),
        t.tops_face_up(),
    ensures
        spec_apply_action(t, a).tops_face_up(),
{
    let t2 = spec_apply_action(t, a);
    match a {
        Action::Move { range, flip_card, from, to } => {
            let f = from as int;
            let o = to as int;
            let s = t.stacks[f];
            let k = range.spec_len();
            assert forall|i: int| 0 <= i < 10 && (#[trigger] t2.stacks[i]).len() > 0 implies
                t2.stacks[i].last().is_facing_up by {
                if i == o {
                    assert(range.cards_seq()[k - 1] == s.subrange(s.len() - k, s.len() as int)[k
                        - 1]);
                    assert(range.cards_seq().last().is_facing_up == s.last().is_facing_up);
                    assert(t2.stacks[o].last() == range.cards_seq().last());
                } else if i == f {
                    if !flip_card {
                        assert(t2.stacks[f].last() == s[s.len() - k - 1]);
                    }
                }
            }
        },
        Action::Deal => {
            assert forall|i: int| 0 <= i < 10 && (#[trigger] t2.stacks[i]).len() > 0 implies
                t2.stacks[i].last().is_facing_up by {}
        },
        Action::RemoveFullStack { suit, stack, flip_card } => {
            let st = stack as int;
            let s = t.stacks[st];
            assert forall|i: int| 0 <= i < 10 && (#[trigger] t2.stacks[i]).len() > 0 implies
                t2.stacks[i].last().is_facing_up by {
                if i == st && !flip_card {
                    assert(t2.stacks[st].last() == s[s.len() - 14]);
                }
            }
        },
        Action::Cheat(c) => {
            match c {
                Cheat::RedealStacks { cards, suit, .. } => {
                    assert forall|i: int| 0 <= i < 10 && (#[trigger] t2.stacks[i]).len() > 0
                        implies t2.stacks[i].last().is_facing_up by {
                        if i >= 3 {
                            assert(t2.stacks[i] == t.stacks[i]);
                        }
                    }
                },
                Cheat::HarvestTopRow { turn_over_cards } => {
                    assert forall|i: int| 0 <= i < 10 && (#[trigger] t2.stacks[i]).len() > 0
                        implies t2.stacks[i].last().is_facing_up by {
                        let popped = t.stacks[i].drop_last();
                        if turn_over_cards@[i] {
                            assert(t2.stacks[i].last() == set_top_face(popped, true).last());
                        } else {
                            assert(t.stacks[i].len() >= 2 ==> t.stacks[i][t.stacks[i].len()
                                - 2].is_facing_up);
                            assert(t2.stacks[i].last() == t.stacks[i][t.stacks[i].len() - 2]);
                        }
                    }
                },
                Cheat::AddAnotherDeck { prev_rng_state, next_rng_state, deck } => {
                    assert forall|i: int| 0 <= i < 10 && (#[trigger] t2.stacks[i]).len() > 0
                        implies t2.stacks[i].last().is_facing_up by {
                        if i < 4 {
                            assert(t2.stacks[i] == t.stacks[i]);
                        } else {
                            assert(t2.stacks[i].last() == deck@[9 - i]);
                        }
                    }
                },
            }
        },
    }
}

// ---------------------------------------------------------------------------
// Conservation of card identities.
// ---------------------------------------------------------------------------

proof fn lemma_pi_concat(a: Seq<Card>, b: Seq<Card>)
    ensures
        pile_identities(a + b) == pile_identities(a) + pile_identities(b),
{
    assert(pile_identities(a + b) =~= pile_identities(a) + pile_identities(b));
}

/// Changing a top card's orientation does not change the pile's identities.
proof fn lemma_pi_set_top(s: Seq<Card>, up: bool)
    requires
        s.len() > 0,
    ensures
        pile_identities(set_top_face(s, up)) == pile_identities(s),
{
    assert(pile_identities(set_top_face(s, up)) =~= pile_identities(s));
}

/// Replacing one stack exchanges its identities in the total.
proof fn lemma_scm_update(s: Seq<Seq<Card>>, i: int, x: Seq<Card>)
    requires
        0 <= i < s.len(),
    ensures
        stacks_card_multiset(s.update(i, x)).add(pile_identities(s[i]).to_multiset())
            == stacks_card_multiset(s).add(pile_identities(x).to_multiset()),
    decreases s.len(),
{
    broadcast use vstd::multiset::group_multiset_axioms;

    let n = s.len() - 1;
    if i == n {
        assert(s.update(i, x).drop_last() =~= s.drop_last());
        assert(s.update(i, x).last() == x);
        assert(stacks_card_multiset(s.update(i, x)) == stacks_card_multiset(s.drop_last()).add(
            pile_identities(x).to_multiset(),
        ));
        assert(stacks_card_multiset(s) == stacks_card_multiset(s.drop_last()).add(
            pile_identities(s[i]).to_multiset(),
        ));
        assert_multisets_equal!(
            stacks_card_multiset(s.update(i, x)).add(pile_identities(s[i]).to_multiset()),
            stacks_card_multiset(s).add(pile_identities(x).to_multiset()),
        );
    } else {
        assert(s.update(i, x).drop_last() =~= s.drop_last().update(i, x));
        assert(s.update(i, x).last() == s.last());
        lemma_scm_update(s.drop_last(), i, x);
        assert(s.drop_last()[i] == s[i]);
        assert(stacks_card_multiset(s.update(i, x)) == stacks_card_multiset(
            s.drop_last().update(i, x),
        ).add(pile_identities(s.last()).to_multiset()));
        assert(stacks_card_multiset(s) == stacks_card_multiset(s.drop_last()).add(
            pile_identities(s.last()).to_multiset(),
        ));
        let m_dlu = stacks_card_multiset(s.drop_last().update(i, x));
        let m_dl = stacks_card_multiset(s.drop_last());
        let p_last = pile_identities(s.last()).to_multiset();
        let p_i = pile_identities(s[i]).to_multiset();
        let p_x = pile_identities(x).to_multiset();
        assert(m_dlu.add(p_i) == m_dl.add(p_x));
        assert forall|v: Card|
            m_dlu.add(p_last).add(p_i).count(v) == m_dl.add(p_last).add(p_x).count(v) by {
            assert(m_dlu.add(p_i).count(v) == m_dl.add(p_x).count(v));
        }
        assert_multisets_equal!(
            stacks_card_multiset(s.update(i, x)).add(pile_identities(s[i]).to_multiset()),
            stacks_card_multiset(s).add(pile_identities(x).to_multiset()),
        );
    }
}

/// Pushing cards onto each stack of the interval `[a, b)` adds exactly
/// those cards' identities.
proof fn lemma_scm_push_interval(
    s1: Seq<Seq<Card>>,
    s2: Seq<Seq<Card>>,
    a: int,
    b: int,
    added: Seq<Card>,
)
    requires
        s1.len() == s2.len(),
        0 <= a <= b <= s1.len(),
        added.len() == b - a,
        forall|i: int| a <= i < b ==> #[trigger] s2[i] == s1[i].push(added[i - a]),
        forall|i: int| 0 <= i < a || b <= i < s1.len() ==> #[trigger] s2[i] == s1[i],
    ensures
        stacks_card_multiset(s2) == stacks_card_multiset(s1).add(
            pile_identities(added).to_multiset(),
        ),
    decreases s1.len(),
{
    broadcast use vstd::multiset::group_multiset_axioms;
    broadcast use vstd::seq_lib::group_to_multiset_ensures;

    if s1.len() == 0 {
        assert(pile_identities(added) =~= Seq::<Card>::empty());
        assert(pile_identities(added).to_multiset().len() == 0);
        assert_multisets_equal!(
            stacks_card_multiset(s2),
            stacks_card_multiset(s1).add(pile_identities(added).to_multiset()),
        );
    } else {
        let n = s1.len() - 1;
        if b <= n {
            lemma_scm_push_interval(s1.drop_last(), s2.drop_last(), a, b, added);
            assert(s2.last() == s1.last());
            assert_multisets_equal!(
                stacks_card_multiset(s2),
                stacks_card_multiset(s1).add(pile_identities(added).to_multiset()),
            );
        } else if a <= n {
            let shorter = added.take(n - a);
            lemma_scm_push_interval(s1.drop_last(), s2.drop_last(), a, n, shorter);
            assert(s2.last() == s1.last().push(added[n - a]));
            assert(pile_identities(s2.last()) =~= pile_identities(s1.last()).push(
                card_identity(added[n - a]),
            ));
            assert(pile_identities(added) =~= pile_identities(shorter).push(
                card_identity(added[n - a]),
            ));
            assert(pile_identities(s2.last()).to_multiset() == pile_identities(
                s1.last(),
            ).to_multiset().insert(card_identity(added[n - a])));
            assert(pile_identities(added).to_multiset() == pile_identities(
                shorter,
            ).to_multiset().insert(card_identity(added[n - a])));
            assert_multisets_equal!(
                stacks_card_multiset(s2),
                stacks_card_multiset(s1).add(pile_identities(added).to_multiset()),
            );
        } else {
            lemma_scm_push_interval(s1.drop_last(), s2.drop_last(), 0, 0, added.take(0));
            assert(added =~= added.take(0));
            assert(s2.last() == s1.last());
            assert(pile_identities(added) =~= Seq::<Card>::empty());
            assert(pile_identities(added).to_multiset().len() == 0);
            assert_multisets_equal!(
                stacks_card_multiset(s2),
                stacks_card_multiset(s1).add(pile_identities(added).to_multiset()),
            );
        }
    }
}

/// Stacks with the same card identities, pile for pile, hold the same
/// identity multiset.
proof fn lemma_scm_pointwise(s1: Seq<Seq<Card>>, s2: Seq<Seq<Card>>)
    requires
        s1.len() == s2.len(),
        forall|i: int|
            0 <= i < s1.len() ==> pile_identities(#[trigger] s2[i]) == pile_identities(s1[i]),
    ensures
        stacks_card_multiset(s2) == stacks_card_multiset(s1),
    decreases s1.len(),
{
    if s1.len() > 0 {
        lemma_scm_pointwise(s1.drop_last(), s2.drop_last());
        assert(pile_identities(s2.last()) == pile_identities(s1.last()));
    }
}

/// Mapping two rank sequences with equal multisets onto card identities of
/// one suit gives card sequences with equal multisets.
proof fn lemma_map_ranks_multiset(a: Seq<u8>, b: Seq<u8>, suit: Suit)
    requires
        a.to_multiset() == b.to_multiset(),
    ensures
        a.map_values(|r: u8| card_identity(rank_card(suit, r))).to_multiset() == b.map_values(
            |r: u8| card_identity(rank_card(suit, r)),
        ).to_multiset(),
    decreases a.len(),
{
    broadcast use vstd::seq_lib::group_to_multiset_ensures;
    broadcast use vstd::multiset::group_multiset_axioms;

    let f = |r: u8| card_identity(rank_card(suit, r));
    if a.len() == 0 {
        assert(b.to_multiset().len() == 0);
        assert(b.len() == 0);
        assert(a.map_values(f) =~= b.map_values(f));
    } else {
        let x = a.last();
        assert(a.contains(x));
        assert(a.to_multiset().count(x) > 0);
        assert(b.to_multiset().count(x) > 0);
        assert(b.contains(x));
        let j = choose|j: int| 0 <= j < b.len() && b[j] == x;
        let a2 = a.drop_last();
        let b2 = b.remove(j);
        assert(a.remove(a.len() - 1) =~= a2);
        assert(a2.to_multiset() == a.to_multiset().remove(x));
        assert(b2.to_multiset() == b.to_multiset().remove(x));
        lemma_map_ranks_multiset(a2, b2, suit);
        assert(a.map_values(f).remove(a.len() - 1) =~= a2.map_values(f));
        assert(a.map_values(f).remove(a.len() - 1).to_multiset() == a.map_values(
            f,
        ).to_multiset().remove(f(x)));
        assert(b.map_values(f).remove(j) =~= b2.map_values(f));
        assert(b.map_values(f).remove(j).to_multiset() == b.map_values(f).to_multiset().remove(
            f(b[j]),
        ));
        assert(a.map_values(f).contains(f(x))) by {
            assert(a.map_values(f)[a.len() - 1] == f(x));
        }
        assert(b.map_values(f).contains(f(x))) by {
            assert(b.map_values(f)[j] == f(x));
        }
        assert(a.map_values(f).to_multiset().count(f(x)) > 0);
        assert(b.map_values(f).to_multiset().count(f(x)) > 0);
        assert_multisets_equal!(
            a.map_values(|r: u8| card_identity(rank_card(suit, r))).to_multiset(),
            b.map_values(|r: u8| card_identity(rank_card(suit, r))).to_multiset(),
            v => {
                assert(a2.map_values(f).to_multiset().count(v) == b2.map_values(
                    f,
                ).to_multiset().count(v));
                assert(a2.map_values(f).to_multiset().count(v) == a.map_values(
                    f,
                ).to_multiset().remove(f(x)).count(v));
                assert(b2.map_values(f).to_multiset().count(v) == b.map_values(
                    f,
                ).to_multiset().remove(f(x)).count(v));
            }
        );
    }
}

/// The extra hypothesis the first cheat needs: its recorded ranks are a
/// permutation of the thirteen ranks, as generation always produces them.
pub open spec fn redeal_ranks_complete(a: Action) -> bool {
    match a {
        Action::Cheat(Cheat::RedealStacks { cards, .. }) => cards@.to_multiset()
            == all_ranks_seq().to_multiset(),
        _ => true,
    }
}

/// Identity conservation: no transition invents, loses or alters a card.
/// Counting the thirteen cards a completed suit stands for, every action
/// leaves the multiset of card identities in play unchanged, except the
/// deck-injecting cheat, which adds exactly its recorded twenty-six cards.
pub proof fn lemma_identity_conservation(t: Table, a: Action)
    requires
        action_fits(a, t),
        redeal_ranks_complete(a),
    ensures
        all_cards_multiset(spec_apply_action(t, a)) == all_cards_multiset(t).add(
            (match a {
                Action::Cheat(Cheat::AddAnotherDeck { deck, .. }) => pile_identities(
                    deck@,
                ).to_multiset(),
                _ => Multiset::<Card>::empty(),
            }),
        ),
{
    broadcast use vstd::multiset::group_multiset_axioms;
    broadcast use vstd::seq_lib::group_to_multiset_ensures;

    let t2 = spec_apply_action(t, a);
    match a {
        Action::Move { range, flip_card, from, to } => {
            let f = from as int;
            let o = to as int;
            let s0 = t.stacks;
            let k = range.spec_len();
            let tk = s0[f].take(s0[f].len() - k);
            let s1 = s0.update(f, tk);
            let s2 = s1.update(o, s1[o] + range.cards_seq());
            lemma_scm_update(s0, f, tk);
            lemma_scm_update(s1, o, s1[o] + range.cards_seq());
            lemma_pi_concat(s1[o], range.cards_seq());
            vstd::seq_lib::lemma_multiset_commutative(
                pile_identities(s1[o]),
                pile_identities(range.cards_seq()),
            );
            assert(tk + range.cards_seq() =~= s0[f]);
            lemma_pi_concat(tk, range.cards_seq());
            vstd::seq_lib::lemma_multiset_commutative(
                pile_identities(tk),
                pile_identities(range.cards_seq()),
            );
            if flip_card {
                lemma_scm_update(s2, f, set_top_face(s2[f], true));
                lemma_pi_set_top(s2[f], true);
            }
            assert_multisets_equal!(
                all_cards_multiset(t2),
                all_cards_multiset(t).add(Multiset::<Card>::empty()),
                v => {
                    assert(stacks_card_multiset(s1).add(
                        pile_identities(s0[f]).to_multiset(),
                    ).count(v) == stacks_card_multiset(s0).add(
                        pile_identities(tk).to_multiset(),
                    ).count(v));
                    assert(stacks_card_multiset(s2).add(
                        pile_identities(s1[o]).to_multiset(),
                    ).count(v) == stacks_card_multiset(s1).add(
                        pile_identities(s1[o] + range.cards_seq()).to_multiset(),
                    ).count(v));
                    assert(pile_identities(s1[o] + range.cards_seq()).to_multiset().count(v)
                        == pile_identities(s1[o]).to_multiset().count(v) + pile_identities(
                        range.cards_seq(),
                    ).to_multiset().count(v));
                    assert(pile_identities(s0[f]).to_multiset().count(v) == pile_identities(
                        tk,
                    ).to_multiset().count(v) + pile_identities(
                        range.cards_seq(),
                    ).to_multiset().count(v));
                    if flip_card {
                        assert(stacks_card_multiset(t2.stacks).add(
                            pile_identities(s2[f]).to_multiset(),
                        ).count(v) == stacks_card_multiset(s2).add(
                            pile_identities(set_top_face(s2[f], true)).to_multiset(),
                        ).count(v));
                        assert(pile_identities(set_top_face(s2[f], true)).to_multiset().count(v)
                            == pile_identities(s2[f]).to_multiset().count(v));
                    }
                }
            );
        },
        Action::Deal => {
            let n = t.deck.len();
            let dealt = t.deck.subrange(n - 10, n as int);
            let added = Seq::new(10, |i: int| crate::action::face_up_card(dealt[i]));
            assert forall|i: int| 0 <= i < 10 implies #[trigger] t2.stacks[i] == t.stacks[i].push(
                added[i - 0],
            ) by {}
            lemma_scm_push_interval(t.stacks, t2.stacks, 0, 10, added);
            assert(pile_identities(added) =~= pile_identities(dealt));
            assert(t.deck =~= t.deck.take(n - 10) + dealt);
            lemma_pi_concat(t.deck.take(n - 10), dealt);
            vstd::seq_lib::lemma_multiset_commutative(
                pile_identities(t.deck.take(n - 10)),
                pile_identities(dealt),
            );
            assert_multisets_equal!(
                all_cards_multiset(t2),
                all_cards_multiset(t).add(Multiset::<Card>::empty()),
                v => {
                    assert(stacks_card_multiset(t2.stacks).count(v) == stacks_card_multiset(
                        t.stacks,
                    ).add(pile_identities(added).to_multiset()).count(v));
                    assert(pile_identities(t.deck).to_multiset().count(v) == pile_identities(
                        t.deck.take(n - 10),
                    ).to_multiset().count(v) + pile_identities(dealt).to_multiset().count(v));
                }
            );
        },
        Action::RemoveFullStack { suit, stack, flip_card } => {
            let st = stack as int;
            let s0 = t.stacks;
            let removed = s0[st].subrange(s0[st].len() - 13, s0[st].len() as int);
            let tk = s0[st].take(s0[st].len() - 13);
            let s1 = s0.update(st, tk);
            lemma_scm_update(s0, st, tk);
            assert(tk + removed =~= s0[st]);
            lemma_pi_concat(tk, removed);
            vstd::seq_lib::lemma_multiset_commutative(
                pile_identities(tk),
                pile_identities(removed),
            );
            if flip_card {
                lemma_scm_update(s1, st, set_top_face(s1[st], true));
                lemma_pi_set_top(s1[st], true);
            }
            assert(t2.completed.drop_last() =~= t.completed);
            assert(t2.completed.last() == suit);
            assert(completed_card_multiset(t2.completed) == completed_card_multiset(
                t.completed,
            ).add(suit_run_identities(suit).to_multiset()));
            assert(pile_identities(removed) == suit_run_identities(suit));
            assert_multisets_equal!(
                all_cards_multiset(t2),
                all_cards_multiset(t).add(Multiset::<Card>::empty()),
                v => {
                    assert(stacks_card_multiset(s1).add(
                        pile_identities(s0[st]).to_multiset(),
                    ).count(v) == stacks_card_multiset(s0).add(
                        pile_identities(tk).to_multiset(),
                    ).count(v));
                    assert(pile_identities(s0[st]).to_multiset().count(v) == pile_identities(
                        tk,
                    ).to_multiset().count(v) + pile_identities(removed).to_multiset().count(v));
                    if flip_card {
                        assert(stacks_card_multiset(t2.stacks).add(
                            pile_identities(s1[st]).to_multiset(),
                        ).count(v) == stacks_card_multiset(s1).add(
                            pile_identities(set_top_face(s1[st], true)).to_multiset(),
                        ).count(v));
                        assert(pile_identities(set_top_face(s1[st], true)).to_multiset().count(v)
                            == pile_identities(s1[st]).to_multiset().count(v));
                    }
                    assert(completed_card_multiset(t2.completed).count(v)
                        == completed_card_multiset(t.completed).count(v) + suit_run_identities(
                        suit,
                    ).to_multiset().count(v));
                }
            );
        },
        Action::Cheat(c) => {
            match c {
                Cheat::RedealStacks { cards, suit, .. } => {
                    let ranks = cards@;
                    let bulk = ranks.len() - ranks.len() % 10;
                    let deck_added = Seq::new(bulk as nat, |i: int| rank_card(suit, ranks[i]));
                    let stack_added = Seq::new(3, |i: int| rank_card(suit, ranks[bulk + i]));
                    assert forall|i: int| 0 <= i < 3 implies #[trigger] t2.stacks[i]
                        == t.stacks[i].push(stack_added[i - 0]) by {}
                    assert forall|i: int| 3 <= i < 10 implies #[trigger] t2.stacks[i]
                        == t.stacks[i] by {}
                    lemma_scm_push_interval(t.stacks, t2.stacks, 0, 3, stack_added);
                    assert(t2.deck =~= t.deck + deck_added);
                    lemma_pi_concat(t.deck, deck_added);
                    vstd::seq_lib::lemma_multiset_commutative(
                        pile_identities(t.deck),
                        pile_identities(deck_added),
                    );
                    assert(t2.completed =~= t.completed.drop_last());
                    assert(completed_card_multiset(t.completed) == completed_card_multiset(
                        t2.completed,
                    ).add(suit_run_identities(suit).to_multiset())) by {
                        assert(t.completed.drop_last() =~= t2.completed);
                    }
                    let mapped = ranks.map_values(|r: u8| card_identity(rank_card(suit, r)));
                    assert(pile_identities(deck_added) + pile_identities(stack_added)
                        =~= mapped);
                    lemma_pi_concat(deck_added, stack_added);
                    vstd::seq_lib::lemma_multiset_commutative(
                        pile_identities(deck_added),
                        pile_identities(stack_added),
                    );
                    lemma_map_ranks_multiset(ranks, all_ranks_seq(), suit);
                    let ideal = all_ranks_seq().map_values(
                        |r: u8| card_identity(rank_card(suit, r)),
                    );
                    assert(suit_run_identities(suit) =~= ideal.reverse());
                    ideal.lemma_reverse_to_multiset();
                    assert_multisets_equal!(
                        all_cards_multiset(t2),
                        all_cards_multiset(t).add(Multiset::<Card>::empty()),
                        v => {
                            assert(stacks_card_multiset(t2.stacks).count(v)
                                == stacks_card_multiset(t.stacks).add(
                                pile_identities(stack_added).to_multiset(),
                            ).count(v));
                            assert(pile_identities(t2.deck).to_multiset().count(v)
                                == pile_identities(t.deck).to_multiset().count(v)
                                + pile_identities(deck_added).to_multiset().count(v));
                            assert(completed_card_multiset(t.completed).count(v)
                                == completed_card_multiset(t2.completed).count(v)
                                + suit_run_identities(suit).to_multiset().count(v));
                            assert(mapped.to_multiset().count(v) == pile_identities(
                                deck_added,
                            ).to_multiset().count(v) + pile_identities(
                                stack_added,
                            ).to_multiset().count(v));
                            assert(mapped.to_multiset().count(v) == ideal.to_multiset().count(v));
                            assert(suit_run_identities(suit).to_multiset().count(v)
                                == ideal.to_multiset().count(v));
                        }
                    );
                },
                Cheat::HarvestTopRow { turn_over_cards } => {
                    let popped = Seq::new(10, |i: int| t.stacks[i].drop_last());
                    let lasts = Seq::new(10, |i: int| t.stacks[i].last());
                    assert forall|i: int| 0 <= i < 10 implies #[trigger] t.stacks[i]
                        == popped[i].push(lasts[i - 0]) by {
                        assert(popped[i].push(lasts[i]) =~= t.stacks[i]);
                    }
                    lemma_scm_push_interval(popped, t.stacks, 0, 10, lasts);
                    assert forall|i: int| 0 <= i < 10 implies pile_identities(
                        #[trigger] t2.stacks[i],
                    ) == pile_identities(popped[i]) by {
                        if turn_over_cards@[i] {
                            lemma_pi_set_top(popped[i], true);
                        }
                    }
                    lemma_scm_pointwise(popped, t2.stacks);
                    assert(t2.deck =~= t.deck + lasts);
                    lemma_pi_concat(t.deck, lasts);
                    vstd::seq_lib::lemma_multiset_commutative(
                        pile_identities(t.deck),
                        pile_identities(lasts),
                    );
                    assert_multisets_equal!(
                        all_cards_multiset(t2),
                        all_cards_multiset(t).add(Multiset::<Card>::empty()),
                        v => {
                            assert(stacks_card_multiset(t.stacks).count(v)
                                == stacks_card_multiset(popped).add(
                                pile_identities(lasts).to_multiset(),
                            ).count(v));
                            assert(stacks_card_multiset(t2.stacks).count(v)
                                == stacks_card_multiset(popped).count(v));
                            assert(pile_identities(t2.deck).to_multiset().count(v)
                                == pile_identities(t.deck).to_multiset().count(v)
                                + pile_identities(lasts).to_multiset().count(v));
                        }
                    );
                },
                Cheat::AddAnotherDeck { deck, .. } => {
                    let injected = deck@;
                    let rem = injected.len() % 10;
                    let added = Seq::new(6, |m: int| injected[5 - m]);
                    assert forall|i: int| 4 <= i < 10 implies #[trigger] t2.stacks[i]
                        == t.stacks[i].push(added[i - 4]) by {}
                    assert forall|i: int| 0 <= i < 4 implies #[trigger] t2.stacks[i]
                        == t.stacks[i] by {}
                    lemma_scm_push_interval(t.stacks, t2.stacks, 4, 10, added);
                    assert(pile_identities(added) =~= pile_identities(injected.take(6)).reverse());
                    pile_identities(injected.take(6)).lemma_reverse_to_multiset();
                    assert(injected =~= injected.take(6) + injected.skip(6));
                    lemma_pi_concat(injected.take(6), injected.skip(6));
                    vstd::seq_lib::lemma_multiset_commutative(
                        pile_identities(injected.take(6)),
                        pile_identities(injected.skip(6)),
                    );
                    assert(t2.deck =~= t.deck + injected.skip(6));
                    lemma_pi_concat(t.deck, injected.skip(6));
                    vstd::seq_lib::lemma_multiset_commutative(
                        pile_identities(t.deck),
                        pile_identities(injected.skip(6)),
                    );
                    assert_multisets_equal!(
                        all_cards_multiset(t2),
                        all_cards_multiset(t).add(pile_identities(deck@).to_multiset()),
                        v => {
                            assert(stacks_card_multiset(t2.stacks).count(v)
                                == stacks_card_multiset(t.stacks).add(
                                pile_identities(added).to_multiset(),
                            ).count(v));
                            assert(pile_identities(added).to_multiset().count(v)
                                == pile_identities(injected.take(6)).to_multiset().count(v));
                            assert(pile_identities(injected).to_multiset().count(v)
                                == pile_identities(injected.take(6)).to_multiset().count(v)
                                + pile_identities(injected.skip(6)).to_multiset().count(v));
                            assert(pile_identities(t2.deck).to_multiset().count(v)
                                == pile_identities(t.deck).to_multiset().count(v)
                                + pile_identities(injected.skip(6)).to_multiset().count(v));
                        }
                    );
                },
            }
        },
    }
}

/// Conservation: every action but the deck-injecting cheat leaves the total
/// card count unchanged; that cheat adds exactly its twenty-six cards. With
/// a fresh deal's count of one hundred and four, any sequence of legal
/// non-injecting actions keeps the count at one hundred and four.
pub proof fn lemma_conservation(t: Table, a: Action)
    requires
        action_fits(a, t),
    ensures
        spec_apply_action(t, a).card_count() == t.card_count() + (match a {
            Action::Cheat(Cheat::AddAnotherDeck { .. }) => 26int,
            _ => 0int,
        }),
{
    lemma_apply_count(a, t);
}

} // verus!
