//! The session: a table plus its undo history, the cascade rule, and the
//! driver step that turns discrete player commands into engine calls.
//!
//! After every applied action the engine re-scans the stacks for a finished
//! thirteen-card run and completes each find as its own logged action, lowest
//! stack index first, until no stack qualifies. Undo pops exactly one logged
//! action, so a cascade is undone press by press, mirroring how it was
//! applied.

use vstd::prelude::*;

use crate::action::{
    action_fits, action_undo_fits, can_move_spec, move_flip_spec, spec_apply_action,
    spec_undo_action, total_stack_len, Action, GameState, Table,
};
use crate::cards::{top_run, top_run_len, topmost_run, Card};
use crate::cards::{lemma_chain_cards, lemma_segment_cards, lemma_top_run_char};
use crate::cheats::{cheat_fits, Cheat};
use crate::rng::rng_eq;

verus! {

// ---------------------------------------------------------------------------
// The cascade rule.
// ---------------------------------------------------------------------------

/// Stack `i` holds a finished run: its topmost run is thirteen cards ending
/// at the ace. (With ranks in range, a thirteen-card run necessarily covers
/// king down to ace; the scan checks the rank interval directly.)
pub open spec fn qualifies(t: Table, i: int) -> bool {
    &&& t.stacks[i].len() > 0
    &&& top_run_len(t.stacks[i]) == 13
    &&& top_run(t.stacks[i]).low == 0
}

/// The lowest qualifying stack index at or after `i`.
pub open spec fn first_qualifying_from(t: Table, i: int) -> Option<int>
    decreases 10 - i,
{
    if i < 0 || i >= 10 {
        None
    } else if qualifies(t, i) {
        Some(i)
    } else {
        first_qualifying_from(t, i + 1)
    }
}

/// The completion the cascade synthesises for qualifying stack `i`.
pub open spec fn completion_action(t: Table, i: int) -> Action {
    Action::RemoveFullStack {
        suit: top_run(t.stacks[i]).suit,
        stack: i as usize,
        flip_card: move_flip_spec(t, i, 13),
    }
}

/// The table after the cascade has completed every finished run.
pub open spec fn spec_cascade(t: Table) -> Table
    decreases total_stack_len(t.stacks),
{
    match first_qualifying_from(t, 0) {
        None => t,
        Some(i) => {
            let t2 = spec_apply_action(t, completion_action(t, i));
            if 0 <= total_stack_len(t2.stacks) < total_stack_len(t.stacks) {
                spec_cascade(t2)
            } else {
                t2
            }
        },
    }
}

/// The completions the cascade appends to the history, in order.
pub open spec fn spec_cascade_actions(t: Table) -> Seq<Action>
    decreases total_stack_len(t.stacks),
{
    match first_qualifying_from(t, 0) {
        None => Seq::<Action>::empty(),
        Some(i) => {
            let t2 = spec_apply_action(t, completion_action(t, i));
            if 0 <= total_stack_len(t2.stacks) < total_stack_len(t.stacks) {
                seq![completion_action(t, i)] + spec_cascade_actions(t2)
            } else {
                seq![completion_action(t, i)]
            }
        },
    }
}

// ---------------------------------------------------------------------------
// Counting lemmas.
// ---------------------------------------------------------------------------

pub proof fn lemma_total_stack_len_nonneg(s: Seq<Seq<Card>>)
    ensures
        total_stack_len(s) >= 0,
    decreases s.len(),
{
    if s.len() > 0 {
        lemma_total_stack_len_nonneg(s.drop_last());
    }
}

/// Changing the lengths of the stacks in `[a, b)` by `d` each, and nothing
/// else, changes the total by `(b - a) * d`.
pub proof fn lemma_total_stack_len_interval(
    s1: Seq<Seq<Card>>,
    s2: Seq<Seq<Card>>,
    a: int,
    b: int,
    d: int,
)
    requires
        s1.len() == s2.len(),
        0 <= a <= b <= s1.len(),
        forall|i: int| a <= i < b ==> (#[trigger] s2[i]).len() == s1[i].len() + d,
        forall|i: int| 0 <= i < a || b <= i < s1.len() ==> (#[trigger] s2[i]).len() == s1[i].len(),
    ensures
        total_stack_len(s2) == total_stack_len(s1) + (b - a) * d,
    decreases s1.len(),
{
    if s1.len() == 0 {
        assert((b - a) * d == 0) by (nonlinear_arith)
            requires a == b;
    } else {
        let n = s1.len() - 1;
        if b <= n {
            lemma_total_stack_len_interval(s1.drop_last(), s2.drop_last(), a, b, d);
            assert(s2.last().len() == s1.last().len());
        } else if a <= n {
            lemma_total_stack_len_interval(s1.drop_last(), s2.drop_last(), a, n, d);
            assert(s2.last().len() == s1.last().len() + d);
            assert((n - a) * d + d == (b - a) * d) by (nonlinear_arith)
                requires b == n + 1;
        } else {
            lemma_total_stack_len_interval(s1.drop_last(), s2.drop_last(), 0, 0, d);
            assert(s2.last().len() == s1.last().len());
            assert((b - a) * d == 0) by (nonlinear_arith)
                requires a == b;
        }
    }
}

/// Replacing one stack changes the total by the difference in length.
pub proof fn lemma_total_stack_len_update(s: Seq<Seq<Card>>, i: int, x: Seq<Card>)
    requires
        0 <= i < s.len(),
    ensures
        total_stack_len(s.update(i, x)) == total_stack_len(s) - s[i].len() + x.len(),
    decreases s.len(),
{
    let n = s.len() - 1;
    if i == n {
        assert(s.update(i, x).drop_last() =~= s.drop_last());
        assert(s.update(i, x).last() == x);
    } else {
        assert(s.update(i, x).drop_last() =~= s.drop_last().update(i, x));
        assert(s.update(i, x).last() == s.last());
        lemma_total_stack_len_update(s.drop_last(), i, x);
    }
}

/// Exactly how every action changes the card count: the deck-injecting
/// cheat adds its twenty-six cards, everything else conserves the count.
pub proof fn lemma_apply_count(a: Action, t: Table)
    requires
        action_fits(a, t),
    ensures
        spec_apply_action(t, a).card_count() == t.card_count() + (match a {
            Action::Cheat(Cheat::AddAnotherDeck { .. }) => 26int,
            _ => 0int,
        }),
{
    match a {
        Action::Move { range, flip_card, from, to } => {
            let k = range.spec_len();
            let s0 = t.stacks;
            let s1 = s0.update(from as int, s0[from as int].take(s0[from as int].len() - k));
            lemma_total_stack_len_update(s0, from as int, s1[from as int]);
            let s2 = s1.update(to as int, s1[to as int] + range.cards_seq());
            lemma_total_stack_len_update(s1, to as int, s2[to as int]);
            if flip_card {
                let s3 = s2.update(
                    from as int,
                    crate::action::set_top_face(s2[from as int], true),
                );
                lemma_total_stack_len_update(s2, from as int, s3[from as int]);
            }
        },
        Action::Deal => {
            let t2 = spec_apply_action(t, a);
            lemma_total_stack_len_interval(t.stacks, t2.stacks, 0, 10, 1);
        },
        Action::RemoveFullStack { suit, stack, flip_card } => {
            let s0 = t.stacks;
            let s1 = s0.update(stack as int, s0[stack as int].take(s0[stack as int].len() - 13));
            lemma_total_stack_len_update(s0, stack as int, s1[stack as int]);
            if flip_card {
                let s2 = s1.update(
                    stack as int,
                    crate::action::set_top_face(s1[stack as int], true),
                );
                lemma_total_stack_len_update(s1, stack as int, s2[stack as int]);
            }
        },
        Action::Cheat(c) => {
            let t2 = spec_apply_action(t, a);
            match c {
                Cheat::RedealStacks { cards, suit, .. } => {
                    lemma_total_stack_len_interval(t.stacks, t2.stacks, 0, 3, 1);
                },
                Cheat::HarvestTopRow { turn_over_cards } => {
                    lemma_total_stack_len_interval(t.stacks, t2.stacks, 0, 10, -1);
                },
                Cheat::AddAnotherDeck { deck, .. } => {
                    lemma_total_stack_len_interval(t.stacks, t2.stacks, 4, 10, 1);
                },
            }
        },
    }
}

// ---------------------------------------------------------------------------
// The session.
// ---------------------------------------------------------------------------

/// A table together with the ordered log of every action applied to it.
pub struct StateWithUndoHistory {
    pub state: GameState,
    pub undo_stack: Vec<Action>,
}

/// Find the lowest-index stack holding a finished run, with the completion
/// action the cascade will apply to it.
fn find_completion(state: &GameState) -> (r: Option<Action>)
    requires
        state.wf(),
    ensures
        match first_qualifying_from(state@, 0) {
            None => r is None,
            Some(i) => {
                &&& r == Some(completion_action(state@, i))
                &&& action_fits(completion_action(state@, i), state@)
            },
        },
{
    let mut i: usize = 0;
    while i < 10
        invariant
            i <= 10,
            state.wf(),
            first_qualifying_from(state@, 0) == first_qualifying_from(state@, i as int),
        decreases 10 - i,
    {
        let stack_ref = &state.stacks[i];
        match topmost_run(stack_ref) {
            Some(g) => {
                if g.low == 0 && g.high == 12 {
                    proof {
                        let s = state@.stacks[i as int];
                        lemma_top_run_char(s);
                        lemma_chain_cards(s, s.len() - top_run_len(s), s.len() as int);
                        assert(qualifies(state@, i as int));
                        lemma_segment_cards(s, s.len() - 13, s.len() as int);
                        assert(crate::cards::linked(s[s.len() - 13], s[s.len() - 12]));
                        assert(top_run(s) == crate::action::full_run(g.suit));
                        assert(s.subrange(s.len() - 13, s.len() as int)
                            == crate::action::full_run(g.suit).cards_seq());
                    }
                    let ls = state.stacks[i].len();
                    let flip = ls > 13 && !state.stacks[i][ls - 14].is_facing_up;
                    return Some(
                        Action::RemoveFullStack { suit: g.suit, stack: i, flip_card: flip },
                    );
                } else {
                    proof {
                        let s = state@.stacks[i as int];
                        if s.len() > 0 && top_run_len(s) == 13 && top_run(s).low == 0 {
                            lemma_top_run_char(s);
                            lemma_chain_cards(s, s.len() - top_run_len(s), s.len() as int);
                        }
                    }
                }
            },
            None => {},
        }
        i += 1;
    }
    None
}

impl StateWithUndoHistory {
    pub open spec fn wf(self) -> bool {
        self.state.wf()
    }

    /// Apply one action, log it, then complete every finished run the table
    /// now shows, logging each completion as its own history entry, lowest
    /// stack first, until none qualifies.
    pub fn perform_action(&mut self, action: Action)
        requires
            old(self).wf(),
            action_fits(action, old(self).state@),
            crate::laws::redeal_ranks_complete(action),
        ensures
            final(self).wf(),
            final(self).state@ == spec_cascade(spec_apply_action(old(self).state@, action)),
            final(self).undo_stack@ == old(self).undo_stack@ + seq![action]
                + spec_cascade_actions(spec_apply_action(old(self).state@, action)),
            first_qualifying_from(final(self).state@, 0) is None,
            final(self).state@.card_count() == old(self).state@.card_count() + (match action {
                Action::Cheat(Cheat::AddAnotherDeck { .. }) => 26int,
                _ => 0int,
            }),
            old(self).state@.tops_face_up() ==> final(self).state@.tops_face_up(),
            crate::action::all_cards_multiset(final(self).state@)
                == crate::action::all_cards_multiset(old(self).state@).add(
                (match action {
                    Action::Cheat(Cheat::AddAnotherDeck { deck, .. }) => crate::action::pile_identities(
                        deck@,
                    ).to_multiset(),
                    _ => vstd::multiset::Multiset::<crate::cards::Card>::empty(),
                }),
            ),
    {
        proof {
            lemma_apply_count(action, old(self).state@);
            crate::laws::lemma_identity_conservation(old(self).state@, action);
            if old(self).state@.tops_face_up() {
                crate::laws::lemma_tops_face_up_preserved(old(self).state@, action);
            }
        }
        let ghost t1 = spec_apply_action(old(self).state@, action);
        self.state.apply_action(&action);
        self.undo_stack.push(action);
        loop
            invariant
                self.state.wf(),
                spec_cascade(t1) == spec_cascade(self.state@),
                self.state@.card_count() == t1.card_count(),
                old(self).state@.tops_face_up() ==> self.state@.tops_face_up(),
                crate::action::all_cards_multiset(self.state@)
                    == crate::action::all_cards_multiset(t1),
                self.undo_stack@ + spec_cascade_actions(self.state@) == old(self).undo_stack@
                    + seq![action] + spec_cascade_actions(t1),
            ensures
                self.state.wf(),
                self.state@ == spec_cascade(t1),
                old(self).state@.tops_face_up() ==> self.state@.tops_face_up(),
                self.state@.card_count() == t1.card_count(),
                self.undo_stack@ == old(self).undo_stack@ + seq![action]
                    + spec_cascade_actions(t1),
                first_qualifying_from(self.state@, 0) is None,
            decreases total_stack_len(self.state@.stacks),
        {
            proof {
                lemma_total_stack_len_nonneg(self.state@.stacks);
            }
            match find_completion(&self.state) {
                None => {
                    proof {
                        assert(spec_cascade(self.state@) == self.state@);
                        assert(spec_cascade_actions(self.state@) =~= Seq::<Action>::empty());
                        assert(self.undo_stack@ =~= self.undo_stack@ + Seq::<Action>::empty());
                        assert(self.undo_stack@ == old(self).undo_stack@ + seq![action]
                            + spec_cascade_actions(t1));
                    }
                    break ;
                },
                Some(act) => {
                    proof {
                        let i = first_qualifying_from(self.state@, 0)->0;
                        let t2 = spec_apply_action(self.state@, act);
                        lemma_apply_count(act, self.state@);
                        crate::laws::lemma_identity_conservation(self.state@, act);
                        if old(self).state@.tops_face_up() {
                            crate::laws::lemma_tops_face_up_preserved(self.state@, act);
                        }
                        lemma_total_stack_len_nonneg(t2.stacks);
                        assert(t2.deck == self.state@.deck);
                        assert(t2.completed.len() == self.state@.completed.len() + 1);
                        assert(total_stack_len(t2.stacks) == total_stack_len(self.state@.stacks)
                            - 13);
                        assert(spec_cascade(self.state@) == spec_cascade(t2));
                        assert(spec_cascade_actions(self.state@) == seq![act]
                            + spec_cascade_actions(t2));
                        assert((self.undo_stack@ + seq![act]) + spec_cascade_actions(t2)
                            =~= self.undo_stack@ + spec_cascade_actions(self.state@));
                    }
                    self.state.apply_action(&act);
                    self.undo_stack.push(act);
                },
            }
        }
    }
}

/// Check at run time that an action can be undone on this state; `false`
/// means the log no longer matches the table.
#[verifier::loop_isolation(false)]
fn action_undo_fits_check(a: &Action, s: &GameState) -> (r: bool)
    requires
        s.wf(),
    ensures
        r == action_undo_fits(*a, s@),
{
    match a {
        Action::Move { range, flip_card, from, to } => {
            if !(*from < 10 && *to < 10 && *from != *to && range.low <= range.high) {
                return false;
            }
            let k = range.len();
            k <= s.stacks[*to].len() && (!*flip_card || s.stacks[*from].len() > 0)
        },
        Action::Deal => {
            let mut i: usize = 0;
            while i < 10
                invariant
                    i <= 10,
                    s.wf(),
                    forall|j: int| 0 <= j < i ==> (#[trigger] s@.stacks[j]).len() > 0,
                decreases 10 - i,
            {
                if s.stacks[i].len() == 0 {
                    proof {
                        assert(s@.stacks[i as int].len() == 0);
                    }
                    return false;
                }
                i += 1;
            }
            true
        },
        Action::RemoveFullStack { suit, stack, flip_card } => {
            *stack < 10 && s.completed_stacks.len() > 0 && (!*flip_card || s.stacks[*stack].len()
                > 0)
        },
        Action::Cheat(c) => crate::cheats::cheat_undo_fits_check(c, s),
    }
}

/// How one undo press relates the session before and after: an empty history
/// is a no-op; a mismatched log entry (corruption) leaves everything
/// untouched; otherwise exactly the last action is reversed.
pub open spec fn undo_rel(pre: StateWithUndoHistory, post: StateWithUndoHistory, ok: bool) -> bool {
    if pre.undo_stack@.len() == 0 {
        &&& ok
        &&& post.state == pre.state
        &&& post.undo_stack@ == pre.undo_stack@
    } else {
        let a = pre.undo_stack@.last();
        if action_undo_fits(a, pre.state@) {
            &&& ok
            &&& post.state@ == spec_undo_action(pre.state@, a)
            &&& post.undo_stack@ == pre.undo_stack@.drop_last()
        } else {
            &&& !ok
            &&& post.state == pre.state
            &&& post.undo_stack@ == pre.undo_stack@
        }
    }
}

impl StateWithUndoHistory {
    /// Undo the most recent logged action. An empty history is a no-op; when
    /// the last entry no longer matches the table — the corruption signal —
    /// nothing is changed and `false` comes back.
    pub fn undo(&mut self) -> (ok: bool)
        requires
            old(self).wf(),
        ensures
            final(self).wf(),
            undo_rel(*old(self), *final(self), ok),
    {
        let action = match self.undo_stack.pop() {
            None => {
                return true;
            },
            Some(a) => a,
        };
        if action_undo_fits_check(&action, &self.state) {
            self.state.undo_action(&action);
            true
        } else {
            self.undo_stack.push(action);
            proof {
                assert(self.undo_stack@ =~= old(self).undo_stack@);
            }
            false
        }
    }
}

// ---------------------------------------------------------------------------
// The driver step.
// ---------------------------------------------------------------------------

/// The interaction mode of the driver.
#[derive(Copy, Clone, Eq, PartialEq, Debug, Structural)]
pub enum InputState {
    SelectSource,
    SelectDestination(usize),
    CheatMenu,
}

/// A discrete player command, as the input collaborator decodes it.
#[derive(Copy, Clone, Eq, PartialEq, Debug, Structural)]
pub enum Input {
    Undo,
    Deal,
    Row(u32),
    Quit,
    ExitMenu,
    ShowCheatMenu,
    Restart,
}

/// What the caller must do after one driver step.
pub struct StepResult {
    pub next_mode: InputState,
    pub changed: bool,
    pub save: bool,
    pub quit: bool,
    pub restart: bool,
    /// An undo press found a log entry that no longer matches the table:
    /// the state was mutated from outside and the caller should abort.
    pub corrupted: bool,
}

/// One action was applied and logged, cascade included.
pub open spec fn performed(
    pre: StateWithUndoHistory,
    post: StateWithUndoHistory,
    a: Action,
) -> bool {
    &&& post.state@ == spec_cascade(spec_apply_action(pre.state@, a))
    &&& post.undo_stack@ == pre.undo_stack@ + seq![a] + spec_cascade_actions(
        spec_apply_action(pre.state@, a),
    )
}

/// Feed one decoded command to the session. The session driver: everything
/// the interactive loop decides stands here; the caller only draws, reads
/// input, saves, and restarts or quits as told.
///
/// A deal request is gated on ten stock cards: below that the step changes
/// nothing at all.
pub fn session_step(game: &mut StateWithUndoHistory, mode: InputState, input: Input) -> (res:
    StepResult)
    requires
        old(game).wf(),
    ensures
        final(game).wf(),
        (input is Deal && old(game).state@.deck.len() < 10) ==> *final(game) == *old(game)
            && !res.changed,
        (input is Deal && old(game).state@.deck.len() >= 10) ==> performed(
            *old(game),
            *final(game),
            Action::Deal,
        ),
        input is Undo ==> undo_rel(*old(game), *final(game), !res.corrupted),
        !(input is Undo) ==> !res.corrupted,
        (input is Quit || input is Restart || input is ShowCheatMenu || input is ExitMenu)
            ==> *final(game) == *old(game),
        (match (input, mode) {
            (Input::Row(e), InputState::SelectSource) => *final(game) == *old(game),
            (Input::Row(e), InputState::SelectDestination(src)) => {
                let dst = e as int;
                if src < 10 && dst < 10 && can_move_spec(old(game).state@, src as int, dst)
                    is Some {
                    performed(
                        *old(game),
                        *final(game),
                        (Action::Move {
                            range: can_move_spec(old(game).state@, src as int, dst)->0,
                            flip_card: move_flip_spec(
                                old(game).state@,
                                src as int,
                                can_move_spec(old(game).state@, src as int, dst)->0.spec_len(),
                            ),
                            from: src,
                            to: e as usize,
                        }),
                    )
                } else {
                    *final(game) == *old(game)
                }
            },
            (Input::Row(e), InputState::CheatMenu) => (*final(game) == *old(game) || exists|
                c: Cheat,
            |
                #[trigger] cheat_fits(c, old(game).state@) && performed(
                    *old(game),
                    *final(game),
                    Action::Cheat(c),
                )),
            _ => true,
        }),
        res.quit <==> input is Quit,
        res.restart <==> input is Restart,
{
    let mut res = StepResult {
        next_mode: mode,
        changed: false,
        save: false,
        quit: false,
        restart: false,
        corrupted: false,
    };
    match input {
        Input::Restart => {
            res.restart = true;
            res.changed = true;
            res.next_mode = InputState::SelectSource;
        },
        Input::Undo => {
            let ok = game.undo();
            res.corrupted = !ok;
            res.save = true;
            res.changed = true;
        },
        Input::Deal => {
            if game.state.deck.len() >= 10 {
                game.perform_action(Action::Deal);
                res.save = true;
                res.changed = true;
            }
        },
        Input::Row(e) => {
            match mode {
                InputState::SelectSource => {
                    res.next_mode = InputState::SelectDestination(e as usize);
                    res.changed = true;
                },
                InputState::SelectDestination(source) => {
                    res.next_mode = InputState::SelectSource;
                    res.changed = true;
                    let dest = e as usize;
                    if source < 10 && dest < 10 {
                        match game.state.move_from_to(source, dest) {
                            Some(act) => {
                                game.perform_action(act);
                                res.save = true;
                            },
                            None => {},
                        }
                    }
                },
                InputState::CheatMenu => {
                    res.next_mode = InputState::SelectSource;
                    res.changed = true;
                    match crate::cheats::generate_cheat(&game.state, e as usize) {
                        Some(c) => {
                            if crate::cheats::cheat_fits_check(&c, &game.state) {
                                let ghost gc = c;
                                game.perform_action(Action::Cheat(c));
                                proof {
                                    assert(cheat_fits(gc, old(game).state@) && performed(
                                        *old(game),
                                        *game,
                                        Action::Cheat(gc),
                                    ));
                                }
                                res.save = true;
                            }
                        },
                        None => {},
                    }
                },
            }
        },
        Input::ShowCheatMenu => {
            res.next_mode = InputState::CheatMenu;
            res.changed = true;
        },
        Input::ExitMenu => {
            res.next_mode = InputState::SelectSource;
            res.changed = true;
        },
        Input::Quit => {
            res.quit = true;
        },
    }
    res
}

} // verus!
