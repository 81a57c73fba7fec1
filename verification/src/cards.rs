//! Card, run and grouping model.
//!
//! A stack is a `Vec<Card>` ordered bottom to top. Two neighbouring cards are
//! `linked` when both are face-up, share a suit, and the upper card's rank is
//! exactly one below the lower card's. Maximal linked segments are the "runs"
//! of the stack; the topmost run is the only part of a stack that may move.

use vstd::prelude::*;

verus! {

/// The four suits of the save format; the variant deals only clubs and hearts.
#[derive(Copy, Clone, Eq, PartialEq, Debug, Structural)]
pub enum Suit {
    Clubs,
    Hearts,
    Diamonds,
    Spades,
}

#[derive(Copy, Clone, Eq, PartialEq, Debug, Structural)]
pub enum CardColor {
    Red,
    Black,
}

impl Suit {
    pub open spec fn color_spec(self) -> CardColor {
        match self {
            Suit::Hearts | Suit::Diamonds => CardColor::Red,
            Suit::Clubs | Suit::Spades => CardColor::Black,
        }
    }

    pub fn get_color(&self) -> (c: CardColor)
        ensures
            c == self.color_spec(),
    {
        match self {
            Suit::Hearts | Suit::Diamonds => CardColor::Red,
            Suit::Clubs | Suit::Spades => CardColor::Black,
        }
    }

    pub open spec fn from_char_spec(v: char) -> Option<Suit> {
        if v == '♣' {
            Some(Suit::Clubs)
        } else if v == '♥' {
            Some(Suit::Hearts)
        } else if v == '♦' {
            Some(Suit::Diamonds)
        } else if v == '♠' {
            Some(Suit::Spades)
        } else {
            None
        }
    }

    pub fn from_char(v: char) -> (r: Option<Suit>)
        ensures
            r == Suit::from_char_spec(v),
    {
        match v {
            '♣' => Some(Suit::Clubs),
            '♥' => Some(Suit::Hearts),
            '♦' => Some(Suit::Diamonds),
            '♠' => Some(Suit::Spades),
            _ => None,
        }
    }
}

/// A playing card; `rank` runs from 0 (ace) to 12 (king).
#[derive(Copy, Clone, Eq, PartialEq, Debug, Structural)]
pub struct Card {
    pub suit: Suit,
    pub rank: u8,
    pub is_facing_up: bool,
}

impl Card {
    pub open spec fn wf(self) -> bool {
        self.rank < 13
    }
}

/// The card `upper` may rest directly on `lower` as part of one run.
pub open spec fn linked(lower: Card, upper: Card) -> bool {
    &&& lower.is_facing_up
    &&& upper.is_facing_up
    &&& upper.suit == lower.suit
    &&& upper.rank + 1 == lower.rank
}

pub fn linked_exec(lower: &Card, upper: &Card) -> (r: bool)
    ensures
        r == linked(*lower, *upper),
{
    lower.is_facing_up && upper.is_facing_up && upper.suit == lower.suit && lower.rank >= 1
        && upper.rank == lower.rank - 1
}

/// Every neighbouring pair of `s` between `lo` (inclusive) and `hi`
/// (exclusive) is linked.
pub open spec fn chain(s: Seq<Card>, lo: int, hi: int) -> bool {
    forall|m: int| lo < m < hi ==> linked(s[m - 1], #[trigger] s[m])
}

/// A contiguous same-suit descending run of cards, kept as its inclusive rank
/// interval plus suit and orientation; cards are generated highest first.
#[derive(Copy, Clone, Eq, PartialEq, Debug, Structural)]
pub struct CardRange {
    pub suit: Suit,
    pub high: u8,
    pub low: u8,
    pub is_facing_up: bool,
}

impl CardRange {
    pub open spec fn wf(self) -> bool {
        self.low <= self.high && self.high < 13
    }

    pub open spec fn spec_len(self) -> int {
        self.high - self.low + 1
    }

    /// The `i`-th card counted from the high end of the interval.
    pub open spec fn card_at_spec(self, i: int) -> Card {
        Card { suit: self.suit, rank: (self.high - i) as u8, is_facing_up: self.is_facing_up }
    }

    /// All cards of the run, highest rank first.
    pub open spec fn cards_seq(self) -> Seq<Card> {
        Seq::new((self.high - self.low + 1) as nat, |i: int| self.card_at_spec(i))
    }

    pub fn len(&self) -> (n: usize)
        requires
            self.low <= self.high,
        ensures
            n == self.spec_len(),
    {
        (self.high - self.low) as usize + 1
    }

    pub fn contains_rank(&self, rank: u8) -> (r: bool)
        ensures
            r == (self.low <= rank <= self.high),
    {
        self.low <= rank && rank <= self.high
    }

    /// The highest card of the run.
    pub fn first(&self) -> (r: Option<Card>)
        ensures
            r == Some(Card { suit: self.suit, rank: self.high, is_facing_up: self.is_facing_up }),
    {
        Some(Card { suit: self.suit, rank: self.high, is_facing_up: self.is_facing_up })
    }

    /// The lowest card of the run.
    pub fn last(&self) -> (r: Option<Card>)
        ensures
            r == Some(Card { suit: self.suit, rank: self.low, is_facing_up: self.is_facing_up }),
    {
        Some(Card { suit: self.suit, rank: self.low, is_facing_up: self.is_facing_up })
    }

    /// The concrete cards of the run, highest rank first.
    pub fn cards(&self) -> (v: Vec<Card>)
        requires
            self.low <= self.high,
        ensures
            v@ == self.cards_seq(),
    {
        let n = self.len();
        let mut v: Vec<Card> = Vec::new();
        let mut i: usize = 0;
        while i < n
            invariant
                n == self.spec_len(),
                self.low <= self.high,
                i <= n,
                v@.len() == i,
                forall|m: int| 0 <= m < i ==> v@[m] == self.card_at_spec(m),
            decreases n - i,
        {
            let c = Card {
                suit: self.suit,
                rank: self.high - (i as u8),
                is_facing_up: self.is_facing_up,
            };
            v.push(c);
            i += 1;
        }
        proof {
            assert(v@ =~= self.cards_seq());
        }
        v
    }
}

/// The range describing the maximal linked segment `s[i .. j)`.
pub open spec fn segment_range(s: Seq<Card>, i: int, j: int) -> CardRange {
    CardRange {
        suit: s[i].suit,
        is_facing_up: s[i].is_facing_up,
        high: s[i].rank,
        low: s[j - 1].rank,
    }
}

/// Length of the maximal linked suffix of `s` (the topmost run); 0 only for
/// an empty stack.
pub open spec fn top_run_len(s: Seq<Card>) -> int
    decreases s.len(),
{
    if s.len() <= 1 {
        s.len() as int
    } else if linked(s[s.len() - 2], s[s.len() - 1]) {
        1 + top_run_len(s.drop_last())
    } else {
        1
    }
}

/// The topmost run of a non-empty stack.
pub open spec fn top_run(s: Seq<Card>) -> CardRange {
    segment_range(s, s.len() - top_run_len(s), s.len() as int)
}

pub proof fn lemma_top_run_len_bounds(s: Seq<Card>)
    requires
        s.len() > 0,
    ensures
        1 <= top_run_len(s) <= s.len(),
    decreases s.len(),
{
    if s.len() > 1 && linked(s[s.len() - 2], s[s.len() - 1]) {
        lemma_top_run_len_bounds(s.drop_last());
    }
}

/// The suffix of length `top_run_len(s)` is a chain, and it cannot be
/// extended one card further down.
pub proof fn lemma_top_run_char(s: Seq<Card>)
    requires
        s.len() > 0,
    ensures
        1 <= top_run_len(s) <= s.len(),
        chain(s, s.len() - top_run_len(s), s.len() as int),
        top_run_len(s) == s.len() || !linked(
            s[s.len() - top_run_len(s) - 1],
            s[s.len() - top_run_len(s)],
        ),
    decreases s.len(),
{
    lemma_top_run_len_bounds(s);
    if s.len() > 1 && linked(s[s.len() - 2], s[s.len() - 1]) {
        let t = s.drop_last();
        lemma_top_run_char(t);
        assert forall|m: int| s.len() - top_run_len(s) < m < s.len() implies linked(
            s[m - 1],
            #[trigger] s[m],
        ) by {
            if m < s.len() - 1 {
                assert(linked(t[m - 1], t[m]));
            }
        }
    }
}

/// Any length with the chain-and-boundary property is the top run length.
pub proof fn lemma_top_run_len_unique(s: Seq<Card>, k: int)
    requires
        1 <= k <= s.len(),
        chain(s, s.len() - k, s.len() as int),
        k == s.len() || !linked(s[s.len() - k - 1], s[s.len() - k]),
    ensures
        k == top_run_len(s),
    decreases s.len(),
{
    lemma_top_run_char(s);
    let tk = top_run_len(s);
    if k < tk {
        assert(linked(s[s.len() - k - 1], s[s.len() - k]));
    } else if tk < k {
        assert(linked(s[s.len() - tk - 1], s[s.len() - tk]));
    }
}

/// Within a chain the suit is constant, ranks descend one by one, and (for a
/// chain of at least two cards) everything is face-up; hence every card of
/// the segment is exactly the card the segment's range generates.
pub proof fn lemma_chain_cards(s: Seq<Card>, i: int, j: int)
    requires
        0 <= i < j <= s.len(),
        chain(s, i, j),
    ensures
        forall|m: int|
            i <= m < j ==> s[m] == (Card {
                suit: s[i].suit,
                rank: (s[i].rank - (m - i)) as u8,
                is_facing_up: s[i].is_facing_up,
            }),
        s[i].rank - s[j - 1].rank == j - 1 - i,
    decreases j - i,
{
    if j - i > 1 {
        lemma_chain_cards(s, i, j - 1);
        assert(linked(s[j - 2], s[j - 1]));
    }
}

/// The cards of a chain segment equal the card sequence of its range.
pub proof fn lemma_segment_cards(s: Seq<Card>, i: int, j: int)
    requires
        0 <= i < j <= s.len(),
        chain(s, i, j),
    ensures
        segment_range(s, i, j).spec_len() == j - i,
        segment_range(s, i, j).cards_seq() =~= s.subrange(i, j),
        segment_range(s, i, j).low <= segment_range(s, i, j).high,
{
    lemma_chain_cards(s, i, j);
    let r = segment_range(s, i, j);
    assert forall|m: int| 0 <= m < j - i implies r.cards_seq()[m] == s.subrange(i, j)[m] by {
        assert(s[i + m] == (Card {
            suit: s[i].suit,
            rank: (s[i].rank - m) as u8,
            is_facing_up: s[i].is_facing_up,
        }));
    }
}

/// Exclusive end of the run that starts at position `i`.
pub open spec fn group_end(s: Seq<Card>, i: int) -> int
    decreases s.len() - i,
{
    if i + 1 >= s.len() {
        s.len() as int
    } else if linked(s[i], s[i + 1]) {
        group_end(s, i + 1)
    } else {
        i + 1
    }
}

pub proof fn lemma_group_end_char(s: Seq<Card>, i: int)
    requires
        0 <= i < s.len(),
    ensures
        i < group_end(s, i) <= s.len(),
        chain(s, i, group_end(s, i)),
        group_end(s, i) == s.len() || !linked(s[group_end(s, i) - 1], s[group_end(s, i)]),
    decreases s.len() - i,
{
    if i + 1 < s.len() && linked(s[i], s[i + 1]) {
        lemma_group_end_char(s, i + 1);
    }
}

/// The runs of the suffix of `s` that starts at position `i`, bottom run
/// first.
pub open spec fn groups_from(s: Seq<Card>, i: int) -> Seq<CardRange>
    decreases s.len() - i,
{
    if i < 0 || i >= s.len() {
        Seq::<CardRange>::empty()
    } else {
        let j = group_end(s, i);
        if j <= i || j > s.len() {
            Seq::<CardRange>::empty()
        } else {
            seq![segment_range(s, i, j)] + groups_from(s, j)
        }
    }
}

/// The segmentation of a whole stack into its maximal runs.
pub open spec fn groups_spec(s: Seq<Card>) -> Seq<CardRange> {
    groups_from(s, 0)
}

/// The last run of the segmentation of a non-empty stack is its topmost
/// run, so the movable part of a stack can be read off either way.
pub proof fn lemma_groups_last_is_topmost(s: Seq<Card>)
    requires
        s.len() > 0,
    ensures
        groups_spec(s).len() > 0,
        groups_spec(s).last() == top_run(s),
{
    lemma_groups_last(s, 0);
}

/// The last run of the suffix segmentation, starting at a run boundary, is
/// the topmost run.
proof fn lemma_groups_last(s: Seq<Card>, i: int)
    requires
        0 <= i < s.len(),
        i == 0 || !linked(s[i - 1], s[i]),
    ensures
        groups_from(s, i).len() > 0,
        groups_from(s, i).last() == top_run(s),
    decreases s.len() - i,
{
    let j = group_end(s, i);
    lemma_group_end_char(s, i);
    if j == s.len() {
        lemma_top_run_len_unique(s, j - i);
        assert(groups_from(s, j) =~= Seq::<CardRange>::empty());
    } else {
        lemma_groups_last(s, j);
    }
}

/// The runs of one stack, derived on demand from its contents, bottom run
/// first; the last run is the one eligible to move.
pub struct Groups(pub Vec<CardRange>);

impl Groups {
    /// Segment a stack into its maximal runs.
    pub fn new(stack: &Vec<Card>) -> (g: Groups)
        ensures
            g.0@ == groups_spec(stack@),
    {
        let n = stack.len();
        let mut runs: Vec<CardRange> = Vec::new();
        let mut i: usize = 0;
        while i < n
            invariant
                i <= n,
                n == stack@.len(),
                groups_spec(stack@) == runs@ + groups_from(stack@, i as int),
            decreases n - i,
        {
            let mut j: usize = i + 1;
            while j < n && linked_exec(&stack[j - 1], &stack[j])
                invariant
                    i < j <= n,
                    n == stack@.len(),
                    chain(stack@, i as int, j as int),
                decreases n - j,
            {
                j += 1;
            }
            proof {
                lemma_group_end_unique(stack@, i as int, j as int);
            }
            let r = CardRange {
                suit: stack[i].suit,
                is_facing_up: stack[i].is_facing_up,
                high: stack[i].rank,
                low: stack[j - 1].rank,
            };
            runs.push(r);
            proof {
                assert(groups_spec(stack@) == runs@ + groups_from(stack@, j as int));
            }
            i = j;
        }
        proof {
            assert(groups_from(stack@, i as int) =~= Seq::<CardRange>::empty());
            assert(runs@ =~= groups_spec(stack@));
        }
        Groups(runs)
    }

    /// The topmost run, if the stack was non-empty.
    pub fn last(&self) -> (r: Option<CardRange>)
        ensures
            self.0@.len() == 0 ==> r is None,
            self.0@.len() > 0 ==> r == Some(self.0@.last()),
    {
        if self.0.len() == 0 {
            None
        } else {
            Some(self.0[self.0.len() - 1])
        }
    }
}

/// Any end position with the chain-and-boundary property is the group end.
pub proof fn lemma_group_end_unique(s: Seq<Card>, i: int, j: int)
    requires
        0 <= i < j <= s.len(),
        chain(s, i, j),
        j == s.len() || !linked(s[j - 1], s[j]),
    ensures
        j == group_end(s, i),
    decreases j - i,
{
    lemma_group_end_char(s, i);
    let e = group_end(s, i);
    if j < e {
        assert(linked(s[j - 1], s[j]));
    } else if e < j {
        assert(linked(s[e - 1], s[e]));
    }
}

/// The topmost run of a non-empty stack: `None` only for an empty stack.
pub fn topmost_run(stack: &Vec<Card>) -> (r: Option<CardRange>)
    ensures
        stack@.len() == 0 <==> r is None,
        stack@.len() > 0 ==> r == Some(top_run(stack@)),
{
    let n = stack.len();
    if n == 0 {
        return None;
    }
    let mut k: usize = 1;
    while k < n && linked_exec(&stack[n - k - 1], &stack[n - k])
        invariant
            1 <= k <= n,
            n == stack@.len(),
            chain(stack@, n - k, n as int),
        decreases n - k,
    {
        k += 1;
    }
    proof {
        lemma_top_run_len_unique(stack@, k as int);
    }
    Some(
        CardRange {
            suit: stack[n - k].suit,
            is_facing_up: stack[n - k].is_facing_up,
            high: stack[n - k].rank,
            low: stack[n - 1].rank,
        },
    )
}

} // verus!
