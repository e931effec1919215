//! Game state, moves and the continuation stack.
//!
//! The engine is a state machine: every card effect is a sequence of
//! [`Frame`]s on [`GameState::stack`]. The engine runs frames until one of them
//! needs a player's input, parks a [`Decision`] and returns, so the whole game
//! is a plain value at every decision point.

use vstd::prelude::*;
use crate::card::{Card, NUM_CARDS};
use crate::rng::{Rng, shuffle_result};

verus! {

/// Most players a game supports.
pub const MAX_PLAYERS: usize = 4;

/// Size of the flat move space: play, buy or select any card, or `Done`.
pub const MOVE_SPACE: usize = 100;

/// A single choice offered to a player.
#[derive(Clone, Copy, PartialEq, Eq, Hash, Debug, Structural)]
pub enum Move {
    /// Play a card from hand (or the card Vassal or Throne Room is about).
    Play(Card),
    /// Buy a card from the supply.
    Buy(Card),
    /// Pick a card in the current selection context.
    Select(Card),
    /// End the phase, stop selecting, or decline an optional effect.
    Done,
}

impl Move {
    pub open spec fn spec_index(self) -> usize {
        match self {
            Move::Play(c) => c.spec_idx(),
            Move::Buy(c) => (NUM_CARDS + c.spec_idx()) as usize,
            Move::Select(c) => (2 * NUM_CARDS + c.spec_idx()) as usize,
            Move::Done => (3 * NUM_CARDS) as usize,
        }
    }

    /// Dense index in `[0, MOVE_SPACE)`.
    #[verifier::when_used_as_spec(spec_index)]
    pub fn index(self) -> (r: usize)
        ensures
            r == self.spec_index(),
            r < MOVE_SPACE,
    {
        match self {
            Move::Play(c) => c.idx(),
            Move::Buy(c) => NUM_CARDS + c.idx(),
            Move::Select(c) => 2 * NUM_CARDS + c.idx(),
            Move::Done => 3 * NUM_CARDS,
        }
    }

    pub open spec fn spec_from_index(i: usize) -> Option<Move> {
        if i < NUM_CARDS {
            Some(Move::Play(Card::spec_from_idx(i)))
        } else if i < 2 * NUM_CARDS {
            Some(Move::Buy(Card::spec_from_idx((i - NUM_CARDS) as usize)))
        } else if i < 3 * NUM_CARDS {
            Some(Move::Select(Card::spec_from_idx((i - 2 * NUM_CARDS) as usize)))
        } else if i == 3 * NUM_CARDS {
            Some(Move::Done)
        } else {
            None
        }
    }

    /// The move with dense index `i`, if `i` is in the move space.
    #[verifier::when_used_as_spec(spec_from_index)]
    pub fn from_index(i: usize) -> (r: Option<Move>)
        ensures
            r == Move::spec_from_index(i),
            r is Some <==> i < MOVE_SPACE,
    {
        if i < NUM_CARDS {
            Some(Move::Play(Card::from_idx(i)))
        } else if i < 2 * NUM_CARDS {
            Some(Move::Buy(Card::from_idx(i - NUM_CARDS)))
        } else if i < 3 * NUM_CARDS {
            Some(Move::Select(Card::from_idx(i - 2 * NUM_CARDS)))
        } else if i == 3 * NUM_CARDS {
            Some(Move::Done)
        } else {
            None
        }
    }
}

/// `from_index` undoes `index`, and `index` undoes `from_index` on the move space.
pub proof fn lemma_move_index_roundtrip(m: Move, i: usize)
    ensures
        Move::spec_from_index(m.spec_index()) == Some(m),
        i < MOVE_SPACE ==> Move::spec_from_index(i).unwrap().spec_index() == i,
{
    match m {
        Move::Play(c) => crate::card::lemma_idx_roundtrip(c, 0),
        Move::Buy(c) => crate::card::lemma_idx_roundtrip(c, 0),
        Move::Select(c) => crate::card::lemma_idx_roundtrip(c, 0),
        Move::Done => {},
    }
    if i < MOVE_SPACE {
        if i < NUM_CARDS {
            crate::card::lemma_idx_roundtrip(Card::Copper, i);
        } else if i < 2 * NUM_CARDS {
            crate::card::lemma_idx_roundtrip(Card::Copper, (i - NUM_CARDS) as usize);
        } else if i < 3 * NUM_CARDS {
            crate::card::lemma_idx_roundtrip(Card::Copper, (i - 2 * NUM_CARDS) as usize);
        }
    }
}

/// What a pending decision is about.
#[derive(Clone, Copy, PartialEq, Eq, Hash, Debug, Structural)]
pub enum Ctx {
    /// Play an Action, or end the action phase.
    ActionPhase,
    /// Play a Treasure, buy a card, or end the turn.
    BuyPhase,
    /// Reveal Moat to block an incoming attack.
    MoatReveal,
    CellarDiscard,
    ChapelTrash,
    /// Put a card from the discard pile onto the deck.
    HarbingerTopdeck,
    /// Play the Action that Vassal just discarded.
    VassalPlay,
    WorkshopGain,
    /// Reveal a Victory card from hand to put on top of the deck.
    BureaucratReveal,
    /// Discard down to 3 cards in hand.
    MilitiaDiscard,
    /// Trash a Copper for +$3.
    MoneylenderTrash,
    /// Discard one card per empty supply pile.
    PoacherDiscard,
    RemodelTrash,
    RemodelGain,
    /// Choose an Action from hand to play twice.
    ThroneRoomPlay,
    /// Trash one of the revealed Treasures (the victim chooses).
    BanditTrash,
    /// Set aside a drawn Action instead of keeping it.
    LibrarySetAside,
    MineTrash,
    MineGain,
    /// Trash any of the cards Sentry revealed.
    SentryTrash,
    /// Discard any of the revealed cards that were not trashed.
    SentryDiscard,
    /// Choose which kept card goes on top of the deck.
    SentryOrder,
    ArtisanGain,
    ArtisanTopdeck,
}

impl Ctx {
    pub open spec fn spec_is_main_phase(self) -> bool {
        self == Ctx::ActionPhase || self == Ctx::BuyPhase
    }

    /// Whether the player is choosing in their own turn's main phases.
    #[verifier::when_used_as_spec(spec_is_main_phase)]
    pub fn is_main_phase(self) -> (r: bool)
        ensures
            r == self.spec_is_main_phase(),
    {
        match self {
            Ctx::ActionPhase | Ctx::BuyPhase => true,
            _ => false,
        }
    }
}

/// A parked decision: whose it is, what it is about, and what is legal.
#[derive(PartialEq, Eq, Debug)]
pub struct Decision {
    pub player: usize,
    pub ctx: Ctx,
    pub options: Vec<Move>,
}

impl Clone for Decision {
    fn clone(&self) -> (r: Self)
        ensures
            r.player == self.player,
            r.ctx == self.ctx,
            r.options@ == self.options@,
    {
        let options = self.options.clone();
        assert(options@ =~= self.options@);
        Decision { player: self.player, ctx: self.ctx, options }
    }
}

/// Where a gained card goes.
#[derive(Clone, Copy, PartialEq, Eq, Hash, Debug, Structural)]
pub enum Dest {
    Discard,
    Hand,
    DeckTop,
}

/// A fixed buffer of up to six cards, so that [`Frame`] is `Copy`.
#[derive(Clone, Copy, PartialEq, Eq, Debug)]
pub struct CardBuf {
    cards: [Card; 6],
    len: u8,
}

impl Default for CardBuf {
    /// An empty buffer.
    fn default() -> (r: Self)
        ensures
            r@ == Seq::<Card>::empty(),
    {
        CardBuf::new()
    }
}

impl View for CardBuf {
    type V = Seq<Card>;

    closed spec fn view(&self) -> Seq<Card> {
        self.cards@.take(if self.len <= 6 { self.len as int } else { 6 })
    }
}

impl CardBuf {
    #[verifier::type_invariant]
    closed spec fn inv(self) -> bool {
        self.len <= 6
    }

    /// The card stored in slot `i`, whether or not it is below the length.
    pub closed spec fn slot(self, i: int) -> Card {
        self.cards@[i]
    }

    /// Slots below the length are the held cards.
    pub proof fn lemma_slot_view(self, i: int)
        requires
            0 <= i < self@.len(),
        ensures
            self.slot(i) == self@[i],
    {
    }

    /// The buffer holds at most six cards.
    pub proof fn lemma_len_bound(self)
        ensures
            self@.len() <= 6,
    {
    }

    /// An empty buffer.
    pub fn new() -> (r: CardBuf)
        ensures
            r@ == Seq::<Card>::empty(),
    {
        let r = CardBuf { cards: [Card::Copper; 6], len: 0 };
        assert(r@ =~= Seq::<Card>::empty());
        r
    }

    /// Append a card; the buffer must have room.
    pub fn push(&mut self, c: Card)
        requires
            old(self)@.len() < 6,
        ensures
            final(self)@ == old(self)@.push(c),
            old(self)@.len() > 0 ==> final(self).slot(0) == old(self).slot(0),
    {
        proof {
            use_type_invariant(&*self);
        }
        let i = self.len as usize;
        let mut cards = self.cards;
        cards[i] = c;
        let ghost old_view = self@;
        *self = CardBuf { cards, len: self.len + 1 };
        assert(self@ =~= old_view.push(c));
    }

    /// Remove the first occurrence at or after position `from`; returns whether
    /// one was found.
    fn remove_first_from(&mut self, c: Card, from: usize) -> (r: bool)
        requires
            from <= 1,
        ensures
            r == (exists|i: int| from <= i < old(self)@.len() && old(self)@[i] == c),
            r ==> exists|i: int|
                from <= i < old(self)@.len() && old(self)@[i] == c
                    && (forall|j: int| from <= j < i ==> old(self)@[j] != c)
                    && final(self)@ == old(self)@.remove(i),
            !r ==> final(self)@ == old(self)@,
            !r ==> *final(self) == *old(self),
            from == 1 ==> final(self).slot(0) == old(self).slot(0),
    {
        proof {
            use_type_invariant(&*self);
        }
        let len = self.len as usize;
        let mut i = from;
        while i < len
            invariant
                from <= i,
                len == self.len,
                len <= 6,
                *self == *old(self),
                self@.len() == len,
                forall|j: int| from <= j < i ==> self@[j] != c,
            decreases len - i,
        {
            if self.cards[i] == c {
                let ghost old_view = self@;
                assert(old_view[i as int] == c);
                let mut cards = self.cards;
                let mut j = i;
                while j + 1 < len
                    invariant
                        i <= j,
                        j < len,
                        len <= 6,
                        forall|k: int| 0 <= k < j ==> cards@[k] == old_view.remove(i as int)[k],
                        forall|k: int| j <= k < len ==> cards@[k] == self.cards@[k],
                        old_view == self.cards@.take(len as int),
                        from <= i,
                        from == 1 ==> cards@[0] == self.cards@[0],
                    decreases len - j,
                {
                    cards[j] = cards[j + 1];
                    j = j + 1;
                }
                *self = CardBuf { cards, len: (len - 1) as u8 };
                assert(self@ =~= old_view.remove(i as int));
                return true;
            }
            i = i + 1;
        }
        false
    }

    /// Remove the first copy of `c`; returns whether there was one.
    pub fn remove_one(&mut self, c: Card) -> (r: bool)
        ensures
            r == old(self)@.contains(c),
            r ==> exists|i: int|
                0 <= i < old(self)@.len() && old(self)@[i] == c
                    && (forall|j: int| 0 <= j < i ==> old(self)@[j] != c)
                    && final(self)@ == old(self)@.remove(i),
            !r ==> final(self)@ == old(self)@,
            !r ==> *final(self) == *old(self),
    {
        self.remove_first_from(c, 0)
    }

    /// Remove the first copy of `c` after the first slot, which names the
    /// effect the buffer belongs to; returns whether there was one.
    pub fn remove_held(&mut self, c: Card) -> (r: bool)
        ensures
            r == (exists|i: int| 1 <= i < old(self)@.len() && old(self)@[i] == c),
            r ==> exists|i: int|
                1 <= i < old(self)@.len() && old(self)@[i] == c
                    && final(self)@ == old(self)@.remove(i),
            !r ==> final(self)@ == old(self)@,
            !r ==> *final(self) == *old(self),
            final(self).slot(0) == old(self).slot(0),
    {
        self.remove_first_from(c, 1)
    }

    /// Whether the buffer holds a copy of `c`.
    pub fn contains(&self, c: Card) -> (r: bool)
        ensures
            r == self@.contains(c),
    {
        proof {
            use_type_invariant(self);
        }
        let len = self.len as usize;
        let mut i: usize = 0;
        while i < len
            invariant
                len == self@.len(),
                len <= 6,
                forall|j: int| 0 <= j < i ==> self@[j] != c,
            decreases len - i,
        {
            if self.cards[i] == c {
                assert(self@[i as int] == c);
                return true;
            }
            i = i + 1;
        }
        false
    }

    /// Number of cards held.
    pub fn len(&self) -> (r: usize)
        ensures
            r == self@.len(),
    {
        proof {
            use_type_invariant(self);
        }
        self.len as usize
    }

    /// Whether the buffer is empty.
    pub fn is_empty(&self) -> (r: bool)
        ensures
            r == (self@.len() == 0),
    {
        proof {
            use_type_invariant(self);
        }
        self.len == 0
    }

    /// The held cards, in order.
    pub fn iter(&self) -> (r: Vec<Card>)
        ensures
            r@ == self@,
    {
        proof {
            use_type_invariant(self);
        }
        let len = self.len as usize;
        let mut r: Vec<Card> = Vec::new();
        let mut i: usize = 0;
        while i < len
            invariant
                len == self@.len(),
                len <= 6,
                i <= len,
                r@ == self@.take(i as int),
            decreases len - i,
        {
            r.push(self.cards[i]);
            i = i + 1;
            assert(r@ =~= self@.take(i as int));
        }
        assert(r@ =~= self@);
        r
    }

    /// The card in slot `i` (slots at or past the length keep whatever was
    /// last stored there).
    pub fn get(&self, i: usize) -> (r: Card)
        requires
            i < 6,
        ensures
            r == self.slot(i as int),
            i < self@.len() ==> r == self@[i as int],
    {
        proof {
            use_type_invariant(self);
        }
        self.cards[i]
    }

    /// A buffer holding `cards` in order; at most six fit.
    pub fn from_slice(cards: &[Card]) -> (r: CardBuf)
        requires
            cards@.len() <= 6,
        ensures
            r@ == cards@,
    {
        let mut b = CardBuf::new();
        let mut i: usize = 0;
        while i < cards.len()
            invariant
                cards@.len() <= 6,
                i <= cards@.len(),
                b@ == cards@.take(i as int),
            decreases cards@.len() - i,
        {
            b.push(cards[i]);
            i = i + 1;
            assert(b@ =~= cards@.take(i as int));
        }
        assert(b@ =~= cards@);
        b
    }

    /// A buffer holding exactly one card.
    pub fn single(c: Card) -> (r: CardBuf)
        ensures
            r@ == seq![c],
            r.slot(0) == c,
    {
        let b = CardBuf { cards: [c; 6], len: 1 };
        assert(b@ =~= seq![c]);
        b
    }
}

/// One entry on the continuation stack.
#[derive(Clone, Copy, PartialEq, Eq, Debug)]
pub struct Frame {
    pub kind: FrameKind,
    /// Player this frame acts on (the victim, for attack frames).
    pub player: u8,
    /// Resumption point within the frame's routine.
    pub step: u8,
    /// General-purpose counter (cards to draw, destination, victims handled).
    pub n: u8,
    pub scratch: CardBuf,
}

impl Frame {
    /// A fresh frame at step 0 with a zero counter and empty scratch.
    pub fn new(kind: FrameKind, player: usize) -> (r: Frame)
        requires
            player < 256,
        ensures
            r.kind == kind,
            r.player == player,
            r.step == 0,
            r.n == 0,
            r.scratch@ == Seq::<Card>::empty(),
    {
        Frame { kind, player: player as u8, step: 0, n: 0, scratch: CardBuf::new() }
    }

    /// The same frame with counter `n`.
    pub fn with_n(self, n: u8) -> (r: Frame)
        ensures
            r == (Frame { n, ..self }),
    {
        let mut f = self;
        f.n = n;
        f
    }

    /// The same frame with scratch `s`.
    pub fn with_scratch(self, s: CardBuf) -> (r: Frame)
        ensures
            r == (Frame { scratch: s, ..self }),
    {
        let mut f = self;
        f.scratch = s;
        f
    }
}

/// The routine a frame runs.
#[derive(Clone, Copy, PartialEq, Eq, Hash, Debug, Structural)]
pub enum FrameKind {
    StartTurn,
    ActionPhase,
    BuyPhase,
    Cleanup,
    /// Draw `n` cards for `player`.
    Draw,
    /// Gain the scratch card to the destination coded in `n` (see [`Dest`]).
    Gain,
    /// Resolve the effect of the scratch card.
    Resolve,
    /// Run the scratch attack against each other player in turn order.
    AttackEach,
    /// Apply the scratch attack to `player`, after checking for Moat.
    AttackOne,
}

/// A player's zones and per-turn counters.
#[derive(PartialEq, Eq, Debug)]
pub struct PlayerState {
    /// Draw pile; the last element is the top of the deck.
    pub deck: Vec<Card>,
    pub hand: Vec<Card>,
    pub discard: Vec<Card>,
    /// Cards played this turn.
    pub play: Vec<Card>,
    /// Cards set aside by an effect in progress (Library).
    pub set_aside: Vec<Card>,
    pub actions: u8,
    pub buys: u8,
    pub coins: u8,
    /// Merchants played this turn.
    pub merchants: u8,
    pub silver_played: bool,
    pub turns: u32,
    /// How many cards at the top of the deck the owner put there knowingly.
    pub known_top: u8,
}

impl Clone for PlayerState {
    fn clone(&self) -> (r: Self)
        ensures
            same_player(r, *self),
    {
        let r = PlayerState {
            deck: self.deck.clone(),
            hand: self.hand.clone(),
            discard: self.discard.clone(),
            play: self.play.clone(),
            set_aside: self.set_aside.clone(),
            actions: self.actions,
            buys: self.buys,
            coins: self.coins,
            merchants: self.merchants,
            silver_played: self.silver_played,
            turns: self.turns,
            known_top: self.known_top,
        };
        assert(r.deck@ =~= self.deck@);
        assert(r.hand@ =~= self.hand@);
        assert(r.discard@ =~= self.discard@);
        assert(r.play@ =~= self.play@);
        assert(r.set_aside@ =~= self.set_aside@);
        r
    }
}

/// Two player states hold the same zones and counters.
pub open spec fn same_player(a: PlayerState, b: PlayerState) -> bool {
    &&& a.deck@ == b.deck@
    &&& a.hand@ == b.hand@
    &&& a.discard@ == b.discard@
    &&& a.play@ == b.play@
    &&& a.set_aside@ == b.set_aside@
    &&& a.actions == b.actions
    &&& a.buys == b.buys
    &&& a.coins == b.coins
    &&& a.merchants == b.merchants
    &&& a.silver_played == b.silver_played
    &&& a.turns == b.turns
    &&& a.known_top == b.known_top
}

/// The seven Coppers and three Estates every player starts with, before shuffling.
pub open spec fn starting_cards() -> Seq<Card> {
    Seq::new(10, |i: int| if i < 7 { Card::Copper } else { Card::Estate })
}

/// Every card a player owns: deck, hand, discard, play and set-aside, in that order.
pub open spec fn owned(p: PlayerState) -> Seq<Card> {
    p.deck@ + p.hand@ + p.discard@ + p.play@ + p.set_aside@
}

/// How many copies of `c` a sequence holds.
pub open spec fn cnt(s: Seq<Card>, c: Card) -> nat {
    s.to_multiset().count(c)
}

/// Appending one card adds one to its count and leaves the others alone.
pub proof fn lemma_cnt_push(s: Seq<Card>, x: Card, c: Card)
    ensures
        cnt(s.push(x), c) == cnt(s, c) + if x == c { 1nat } else { 0nat },
{
    broadcast use vstd::seq_lib::group_to_multiset_ensures, vstd::multiset::group_multiset_axioms;
    assert(s.push(x).to_multiset() =~= s.to_multiset().insert(x));
}

/// Victory points of one card in a deck of `total` cards.
pub open spec fn card_vp(c: Card, total: int) -> int {
    if c == Card::Gardens {
        total / 10
    } else {
        c.spec_static_vp() as int
    }
}

/// Victory points of the cards in `s`, each Gardens counting `total / 10`.
pub open spec fn vp_sum(s: Seq<Card>, total: int) -> int
    decreases s.len(),
{
    if s.len() == 0 {
        0
    } else {
        vp_sum(s.drop_last(), total) + card_vp(s.last(), total)
    }
}

/// Points add up card by card: an Estate is worth 1, a Duchy 3, a Province 6,
/// a Curse -1, a Gardens one per ten cards of the deck (rounded down), and
/// nothing else scores.
pub proof fn lemma_score_formula(s: Seq<Card>, total: int)
    requires
        total >= 0,
    ensures
        vp_sum(s, total) == cnt(s, Card::Estate) + 3 * cnt(s, Card::Duchy) + 6 * cnt(s, Card::Province) - cnt(
            s,
            Card::Curse,
        ) + cnt(s, Card::Gardens) * (total / 10),
    decreases s.len(),
{
    if s.len() == 0 {
        assert(s =~= Seq::<Card>::empty());
        crate::census::lemma_cnt_empty(Card::Estate);
        crate::census::lemma_cnt_empty(Card::Duchy);
        crate::census::lemma_cnt_empty(Card::Province);
        crate::census::lemma_cnt_empty(Card::Curse);
        crate::census::lemma_cnt_empty(Card::Gardens);
        assert(cnt(s, Card::Gardens) * (total / 10) == 0);
    } else {
        let t = s.drop_last();
        let x = s.last();
        lemma_score_formula(t, total);
        assert(s =~= t.push(x));
        lemma_cnt_push(t, x, Card::Estate);
        lemma_cnt_push(t, x, Card::Duchy);
        lemma_cnt_push(t, x, Card::Province);
        lemma_cnt_push(t, x, Card::Curse);
        lemma_cnt_push(t, x, Card::Gardens);
        let k = total / 10;
        let g = cnt(t, Card::Gardens) as int;
        assert((g + 1) * k == g * k + k) by (nonlinear_arith);
        assert(vp_sum(s, total) == vp_sum(t, total) + card_vp(x, total));
        if x == Card::Gardens {
            assert(card_vp(x, total) == k);
        } else {
            assert(card_vp(x, total) == x.spec_static_vp() as int);
        }
    }
}

/// A player's score can be added up in an `i32`: the number of cards they
/// own fits, and so does every running total of their points, card by card.
pub open spec fn score_fits(p: PlayerState) -> bool {
    &&& owned_len(p) <= i32::MAX
    &&& forall|k: int| 0 <= k <= owned_len(p) ==> i32::MIN <= #[trigger] vp_sum(owned(p).take(k), owned_len(p) as int)
        <= i32::MAX
}

/// The number of cards a player owns.
pub open spec fn owned_len(p: PlayerState) -> nat {
    p.deck@.len() + p.hand@.len() + p.discard@.len() + p.play@.len() + p.set_aside@.len()
}

impl PlayerState {
    /// A player with the ten starting cards shuffled into the deck.
    pub fn starting(rng: &mut Rng) -> (r: PlayerState)
        ensures
            (final(rng).state(), r.deck@) == shuffle_result(old(rng).state(), starting_cards()),
            r.deck@.to_multiset() == starting_cards().to_multiset(),
            r.deck@.len() == 10,
            r.hand@.len() == 0,
            r.discard@.len() == 0,
            r.play@.len() == 0,
            r.set_aside@.len() == 0,
            r.actions == 0,
            r.buys == 0,
            r.coins == 0,
            r.merchants == 0,
            !r.silver_played,
            r.turns == 0,
            r.known_top == 0,
    {
        let mut deck: Vec<Card> = Vec::new();
        let mut i: usize = 0;
        while i < 10
            invariant
                i <= 10,
                deck@ == starting_cards().take(i as int),
            decreases 10 - i,
        {
            if i < 7 {
                deck.push(Card::Copper);
            } else {
                deck.push(Card::Estate);
            }
            i = i + 1;
            assert(deck@ =~= starting_cards().take(i as int));
        }
        assert(deck@ =~= starting_cards());
        rng.shuffle(&mut deck);
        PlayerState {
            deck,
            hand: Vec::new(),
            discard: Vec::new(),
            play: Vec::new(),
            set_aside: Vec::new(),
            actions: 0,
            buys: 0,
            coins: 0,
            merchants: 0,
            silver_played: false,
            turns: 0,
            known_top: 0,
        }
    }

    /// Every card the player owns, across all zones.
    pub fn all_cards(&self) -> (r: Vec<Card>)
        ensures
            r@ == owned(*self),
    {
        let mut r: Vec<Card> = Vec::new();
        append_all(&mut r, &self.deck);
        append_all(&mut r, &self.hand);
        append_all(&mut r, &self.discard);
        append_all(&mut r, &self.play);
        append_all(&mut r, &self.set_aside);
        r
    }

    /// How many cards the player owns.
    pub fn total_cards(&self) -> (r: usize)
        requires
            owned_len(*self) <= usize::MAX,
        ensures
            r == owned_len(*self),
    {
        self.deck.len() + self.hand.len() + self.discard.len() + self.play.len()
            + self.set_aside.len()
    }

    /// Victory points: each card's fixed points, and one point per ten owned
    /// cards for each Gardens.
    pub fn score(&self) -> (r: i32)
        requires
            score_fits(*self),
        ensures
            r == vp_sum(owned(*self), owned_len(*self) as int),
    {
        let total = self.total_cards() as i32;
        let all = self.all_cards();
        let ghost t = owned_len(*self) as int;
        assert(all@.len() == owned_len(*self));
        let mut sum: i32 = 0;
        let mut i: usize = 0;
        assert(all@.take(0) =~= Seq::<Card>::empty());
        while i < all.len()
            invariant
                all@ == owned(*self),
                t == owned_len(*self),
                score_fits(*self),
                total == t,
                i <= all@.len(),
                sum == vp_sum(all@.take(i as int), t),
            decreases all@.len() - i,
        {
            let c = all[i];
            let v: i32 = if c == Card::Gardens {
                total / 10
            } else {
                c.static_vp()
            };
            assert(all@.take((i + 1) as int).drop_last() =~= all@.take(i as int));
            proof {
                assert(v == card_vp(c, t));
                assert(i32::MIN <= vp_sum(owned(*self).take(i + 1), t) <= i32::MAX);
            }
            sum = sum + v;
            i = i + 1;
        }
        assert(all@.take(all@.len() as int) =~= all@);
        sum
    }

    /// Whether the player's score can be added up in an `i32` (see
    /// [`score_fits`]).
    pub fn score_in_range(&self) -> (r: bool)
        ensures
            r == score_fits(*self),
    {
        let n: u128 = self.deck.len() as u128 + self.hand.len() as u128 + self.discard.len() as u128
            + self.play.len() as u128 + self.set_aside.len() as u128;
        if n > 0x7FFF_FFFF {
            return false;
        }
        let total = n as i32;
        let all = self.all_cards();
        let ghost t = owned_len(*self) as int;
        assert(all@.len() == owned_len(*self));
        let mut sum: i64 = 0;
        let mut i: usize = 0;
        assert(all@.take(0) =~= Seq::<Card>::empty());
        while i < all.len()
            invariant
                all@ == owned(*self),
                t == owned_len(*self),
                t <= i32::MAX,
                total == t,
                i <= all@.len(),
                sum == vp_sum(all@.take(i as int), t),
                forall|k: int| 0 <= k <= i ==> i32::MIN <= #[trigger] vp_sum(owned(*self).take(k), t) <= i32::MAX,
            decreases all@.len() - i,
        {
            let c = all[i];
            let v: i64 = if c == Card::Gardens {
                (total / 10) as i64
            } else {
                c.static_vp() as i64
            };
            assert(all@.take((i + 1) as int).drop_last() =~= all@.take(i as int));
            proof {
                assert(v == card_vp(c, t));
                assert(i32::MIN <= vp_sum(owned(*self).take(i as int), t) <= i32::MAX);
            }
            sum = sum + v;
            if sum < -0x8000_0000 || sum > 0x7FFF_FFFF {
                proof {
                    assert(vp_sum(owned(*self).take(i + 1), t) == sum);
                }
                return false;
            }
            i = i + 1;
        }
        true
    }

    /// How many copies of `card` the player owns.
    pub fn count_owned(&self, card: Card) -> (r: usize)
        ensures
            r == cnt(owned(*self), card),
    {
        let all = self.all_cards();
        count_in(&all, card)
    }
}

/// The whole game: players, supply, trash, the continuation stack and the
/// decision it is parked on.
#[derive(PartialEq, Eq, Debug)]
pub struct GameState {
    pub players: Vec<PlayerState>,
    /// Remaining copies of each card; zero for cards not in this kingdom.
    pub supply: [u8; NUM_CARDS],
    /// Which cards are part of this game's supply at all.
    pub in_supply: [bool; NUM_CARDS],
    pub trash: Vec<Card>,
    pub current: u8,
    pub stack: Vec<Frame>,
    pub pending: Option<Decision>,
    /// Move supplied for the pending decision, consumed by the resuming frame.
    pub answer: Option<Move>,
    pub rng: Rng,
    pub over: bool,
    /// Once every player has taken this many turns the game ends.
    pub turn_limit: u32,
}

/// Two pending decisions agree: both absent, or the same player, context and options.
pub open spec fn same_pending(a: Option<Decision>, b: Option<Decision>) -> bool {
    match (a, b) {
        (None, None) => true,
        (Some(x), Some(y)) => x.player == y.player && x.ctx == y.ctx && x.options@ == y.options@,
        _ => false,
    }
}

/// Two game states agree on every field, vectors compared by their contents.
pub open spec fn same_game(a: GameState, b: GameState) -> bool {
    &&& a.players@.len() == b.players@.len()
    &&& forall|i: int| 0 <= i < a.players@.len() ==> same_player(#[trigger] a.players@[i], b.players@[i])
    &&& a.supply == b.supply
    &&& a.in_supply == b.in_supply
    &&& a.trash@ == b.trash@
    &&& a.current == b.current
    &&& a.stack@ == b.stack@
    &&& same_pending(a.pending, b.pending)
    &&& a.answer == b.answer
    &&& a.rng == b.rng
    &&& a.over == b.over
    &&& a.turn_limit == b.turn_limit
}

impl Clone for GameState {
    fn clone(&self) -> (r: Self)
        ensures
            same_game(r, *self),
    {
        let mut players: Vec<PlayerState> = Vec::new();
        let mut i: usize = 0;
        while i < self.players.len()
            invariant
                i <= self.players@.len(),
                players@.len() == i,
                forall|j: int| 0 <= j < i ==> same_player(#[trigger] players@[j], self.players@[j]),
            decreases self.players@.len() - i,
        {
            players.push(self.players[i].clone());
            i = i + 1;
        }
        let pending = match &self.pending {
            Some(d) => Some(d.clone()),
            None => None,
        };
        let trash = self.trash.clone();
        let stack = self.stack.clone();
        assert(trash@ =~= self.trash@);
        assert(stack@ =~= self.stack@);
        GameState {
            players,
            supply: self.supply,
            in_supply: self.in_supply,
            trash,
            current: self.current,
            stack,
            pending,
            answer: self.answer,
            rng: self.rng,
            over: self.over,
            turn_limit: self.turn_limit,
        }
    }
}

/// Whether a supply pile is in the game and not yet empty.
pub open spec fn pile_open(s: GameState, c: Card) -> bool {
    s.in_supply@[c.spec_idx() as int] && s.supply@[c.spec_idx() as int] > 0
}

/// Whether a supply pile is in the game and empty.
pub open spec fn pile_empty(s: GameState, c: Card) -> bool {
    s.in_supply@[c.spec_idx() as int] && s.supply@[c.spec_idx() as int] == 0
}

/// The cards that can be gained for at most `budget` coins, in canonical order.
pub open spec fn buyable_cards(s: GameState, budget: u8) -> Seq<Card> {
    crate::card::spec_all_cards().filter(|c: Card| pile_open(s, c) && c.spec_cost() <= budget)
}

/// The number of empty supply piles.
pub open spec fn empty_pile_count(s: GameState) -> nat {
    crate::card::spec_all_cards().filter(|c: Card| pile_empty(s, c)).len()
}

/// The game-end rule: the Province pile or any three supply piles are empty.
pub open spec fn should_end(s: GameState) -> bool {
    s.supply@[Card::Province.spec_idx() as int] == 0 || empty_pile_count(s) >= 3
}

impl GameState {
    /// The player whose turn it is.
    pub fn cur(&self) -> (r: &PlayerState)
        requires
            self.current < self.players@.len(),
        ensures
            *r == self.players@[self.current as int],
    {
        &self.players[self.current as usize]
    }

    /// The player whose turn it is, for modification.
    pub fn cur_mut(&mut self) -> (r: &mut PlayerState)
        requires
            old(self).current < old(self).players@.len(),
        ensures
            *r == old(self).players@[old(self).current as int],
            final(self).players@ == old(self).players@.update(
                old(self).current as int,
                *final(r),
            ),
            final(self).supply == old(self).supply,
            final(self).in_supply == old(self).in_supply,
            final(self).trash == old(self).trash,
            final(self).current == old(self).current,
            final(self).stack == old(self).stack,
            final(self).pending == old(self).pending,
            final(self).answer == old(self).answer,
            final(self).rng == old(self).rng,
            final(self).over == old(self).over,
            final(self).turn_limit == old(self).turn_limit,
    {
        let i = self.current as usize;
        &mut self.players[i]
    }

    /// Number of players.
    pub fn num_players(&self) -> (r: usize)
        ensures
            r == self.players@.len(),
    {
        self.players.len()
    }

    /// Copies of `card` left in the supply.
    pub fn supply_of(&self, card: Card) -> (r: u8)
        ensures
            r == self.supply@[card.spec_idx() as int],
    {
        self.supply[card.idx()]
    }

    /// How many supply piles are in the game and empty.
    pub fn empty_piles(&self) -> (r: usize)
        ensures
            r == empty_pile_count(*self),
    {
        let ghost all = crate::card::spec_all_cards();
        let ghost pred = |c: Card| pile_empty(*self, c);
        let mut n: usize = 0;
        let mut i: usize = 0;
        while i < NUM_CARDS
            invariant
                i <= NUM_CARDS,
                n == all.take(i as int).filter(pred).len(),
                n <= i,
                all == crate::card::spec_all_cards(),
                pred == (|c: Card| pile_empty(*self, c)),
            decreases NUM_CARDS - i,
        {
            let c = Card::from_idx(i);
            assert(all.take((i + 1) as int).drop_last() =~= all.take(i as int));
            assert(all.take((i + 1) as int).last() == c);
            assert(pred(c) == (self.in_supply@[i as int] && self.supply@[i as int] == 0));
            let ghost prev = all.take(i as int).filter(pred);
            proof {
                reveal_with_fuel(Seq::<_>::filter, 1);
            }
            assert(all.take((i + 1) as int).filter(pred) == if pred(c) {
                prev.push(c)
            } else {
                prev
            });
            if self.in_supply[i] && self.supply[i] == 0 {
                n = n + 1;
            }
            i = i + 1;
        }
        assert(all.take(NUM_CARDS as int) =~= all);
        n
    }

    /// Whether the end-of-game condition holds.
    pub fn game_should_end(&self) -> (r: bool)
        ensures
            r == should_end(*self),
    {
        self.supply_of(Card::Province) == 0 || self.empty_piles() >= 3
    }

    /// Cards that can legally be gained for `budget` coins or less.
    pub fn buyable(&self, budget: u8) -> (r: Vec<Card>)
        ensures
            r@ == buyable_cards(*self, budget),
    {
        let ghost all = crate::card::spec_all_cards();
        let ghost pred = |c: Card| pile_open(*self, c) && c.spec_cost() <= budget;
        let mut r: Vec<Card> = Vec::new();
        let mut i: usize = 0;
        while i < NUM_CARDS
            invariant
                i <= NUM_CARDS,
                r@ == all.take(i as int).filter(pred),
                all == crate::card::spec_all_cards(),
                pred == (|c: Card| pile_open(*self, c) && c.spec_cost() <= budget),
            decreases NUM_CARDS - i,
        {
            let c = Card::from_idx(i);
            assert(all.take((i + 1) as int).drop_last() =~= all.take(i as int));
            assert(all.take((i + 1) as int).last() == c);
            assert(pred(c) == (self.in_supply@[i as int] && self.supply@[i as int] > 0
                && c.spec_cost() <= budget));
            let ghost prev = all.take(i as int).filter(pred);
            proof {
                reveal_with_fuel(Seq::<_>::filter, 1);
            }
            assert(all.take((i + 1) as int).filter(pred) == if pred(c) {
                prev.push(c)
            } else {
                prev
            });
            if self.in_supply[i] && self.supply[i] > 0 && c.cost() <= budget {
                r.push(c);
            }
            i = i + 1;
        }
        assert(all.take(NUM_CARDS as int) =~= all);
        r
    }

    /// Each player's final score.
    pub fn scores(&self) -> (r: Vec<i32>)
        requires
            forall|i: int|
                0 <= i < self.players@.len() ==> score_fits(#[trigger] self.players@[i]),
        ensures
            r@.len() == self.players@.len(),
            forall|i: int|
                0 <= i < r@.len() ==> r@[i] == vp_sum(
                    owned(#[trigger] self.players@[i]),
                    owned_len(self.players@[i]) as int,
                ),
    {
        let mut r: Vec<i32> = Vec::new();
        let mut i: usize = 0;
        while i < self.players.len()
            invariant
                i <= self.players@.len(),
                r@.len() == i,
                forall|j: int|
                    0 <= j < self.players@.len() ==> score_fits(#[trigger] self.players@[j]),
                forall|j: int|
                    0 <= j < i ==> r@[j] == vp_sum(
                        owned(#[trigger] self.players@[j]),
                        owned_len(self.players@[j]) as int,
                    ),
            decreases self.players@.len() - i,
        {
            let sc = self.players[i].score();
            r.push(sc);
            i = i + 1;
        }
        r
    }
}

/// A player's final score.
pub open spec fn player_score(p: PlayerState) -> int {
    vp_sum(owned(p), owned_len(p) as int)
}

/// Player `i` has the highest score.
pub open spec fn has_top_score(s: GameState, i: int) -> bool {
    forall|j: int| 0 <= j < s.players@.len() ==> player_score(#[trigger] s.players@[j]) <= player_score(s.players@[i])
}

/// Player `i` wins: the highest score and, among those with it, the fewest turns.
pub open spec fn is_winner(s: GameState, i: int) -> bool {
    &&& 0 <= i < s.players@.len()
    &&& has_top_score(s, i)
    &&& forall|j: int| 0 <= j < s.players@.len() && has_top_score(s, j) ==> s.players@[i].turns
        <= (#[trigger] s.players@[j]).turns
}

/// Who wins: a player whose score beats every other player's wins alone; a
/// player with a lower score than another never wins; and of two players
/// tied on the top score, one who took more turns than the other does not
/// win, while players tied on both score and turns win together.
pub proof fn lemma_winner_rule(s: GameState, i: int, j: int)
    requires
        0 <= i < s.players@.len(),
        0 <= j < s.players@.len(),
    ensures
        (forall|k: int| 0 <= k < s.players@.len() && k != i ==> player_score(#[trigger] s.players@[k]) < player_score(
            s.players@[i],
        )) ==> is_winner(s, i) && (j != i ==> !is_winner(s, j)),
        player_score(s.players@[i]) < player_score(s.players@[j]) ==> !is_winner(s, i),
        has_top_score(s, i) && has_top_score(s, j) && s.players@[j].turns < s.players@[i].turns ==> !is_winner(s, i),
        is_winner(s, i) && player_score(s.players@[j]) == player_score(s.players@[i]) && s.players@[j].turns
            == s.players@[i].turns ==> is_winner(s, j),
{
    if forall|k: int| 0 <= k < s.players@.len() && k != i ==> player_score(#[trigger] s.players@[k]) < player_score(
        s.players@[i],
    ) {
        assert(has_top_score(s, i));
        assert forall|k: int| 0 <= k < s.players@.len() && has_top_score(s, k) implies s.players@[i].turns
            <= (#[trigger] s.players@[k]).turns by {
            if k != i {
                assert(player_score(s.players@[i]) <= player_score(s.players@[k]));
            }
        }
        if j != i {
            assert(player_score(s.players@[j]) < player_score(s.players@[i]));
        }
    }
    if is_winner(s, i) && player_score(s.players@[j]) == player_score(s.players@[i]) && s.players@[j].turns
        == s.players@[i].turns {
        assert forall|k: int| 0 <= k < s.players@.len() implies player_score(#[trigger] s.players@[k]) <= player_score(
            s.players@[j],
        ) by {
            assert(player_score(s.players@[k]) <= player_score(s.players@[i]));
        }
    }
}

impl GameState {
    /// The winners, in seat order: the players with the highest score, and
    /// among them those who took the fewest turns. Tied winners share the win.
    pub fn winners(&self) -> (r: Vec<usize>)
        requires
            self.players@.len() > 0,
            forall|i: int|
                0 <= i < self.players@.len() ==> score_fits(#[trigger] self.players@[i]),
        ensures
            forall|k: int| 0 <= k < r@.len() ==> is_winner(*self, #[trigger] r@[k] as int),
            forall|i: int| 0 <= i < self.players@.len() && is_winner(*self, i) ==> r@.contains(i as usize),
            forall|a: int, b: int| 0 <= a < b < r@.len() ==> r@[a] < r@[b],
            r@.len() > 0,
    {
        let scores = self.scores();
        let n = scores.len();
        let mut best: usize = 0;
        let mut i: usize = 1;
        while i < n
            invariant
                n == self.players@.len(),
                scores@.len() == n,
                forall|j: int| 0 <= j < n ==> scores@[j] == player_score(#[trigger] self.players@[j]),
                1 <= i <= n,
                best < i,
                forall|j: int| 0 <= j < i ==> scores@[j] <= scores@[best as int],
            decreases n - i,
        {
            if scores[i] > scores[best] {
                best = i;
            }
            i = i + 1;
        }
        let top = scores[best];
        let mut fewest: u32 = self.players[best].turns;
        let mut j: usize = 0;
        while j < n
            invariant
                n == self.players@.len(),
                scores@.len() == n,
                forall|q: int| 0 <= q < n ==> scores@[q] == player_score(#[trigger] self.players@[q]),
                best < n,
                top == scores@[best as int],
                forall|q: int| 0 <= q < n ==> scores@[q] <= top,
                j <= n,
                fewest <= self.players@[best as int].turns,
                exists|q: int| 0 <= q < n && scores@[q] == top && self.players@[q].turns == fewest,
                forall|q: int| 0 <= q < j && scores@[q] == top ==> fewest <= (#[trigger] self.players@[q]).turns,
            decreases n - j,
        {
            if scores[j] == top && self.players[j].turns < fewest {
                fewest = self.players[j].turns;
            }
            j = j + 1;
        }
        let mut r: Vec<usize> = Vec::new();
        let mut k: usize = 0;
        while k < n
            invariant
                n == self.players@.len(),
                scores@.len() == n,
                forall|q: int| 0 <= q < n ==> scores@[q] == player_score(#[trigger] self.players@[q]),
                forall|q: int| 0 <= q < n ==> scores@[q] <= top,
                exists|q: int| 0 <= q < n && scores@[q] == top && self.players@[q].turns == fewest,
                forall|q: int| 0 <= q < n && scores@[q] == top ==> fewest <= (#[trigger] self.players@[q]).turns,
                k <= n,
                forall|q: int| 0 <= q < r@.len() ==> (#[trigger] r@[q]) < k && scores@[r@[q] as int] == top
                    && self.players@[r@[q] as int].turns == fewest,
                forall|q: int| 0 <= q < k && scores@[q] == top && self.players@[q].turns == fewest ==> r@.contains(q as usize),
                forall|a: int, b: int| 0 <= a < b < r@.len() ==> r@[a] < r@[b],
            decreases n - k,
        {
            if scores[k] == top && self.players[k].turns == fewest {
                let ghost before = r@;
                r.push(k);
                proof {
                    assert forall|q: int| 0 <= q < k && scores@[q] == top && self.players@[q].turns == fewest implies r@.contains(q as usize) by {
                        let w = choose|w: int| 0 <= w < before.len() && before[w] == q as usize;
                        assert(r@[w] == q as usize);
                    }
                    assert(r@[r@.len() - 1] == k);
                }
            }
            k = k + 1;
        }
        proof {
            let w = choose|q: int| 0 <= q < n && scores@[q] == top && self.players@[q].turns == fewest;
            assert(r@.contains(w as usize));
            assert forall|q: int| 0 <= q < n implies has_top_score(*self, q) == (scores@[q] == top) by {
                if scores@[q] == top {
                    assert forall|x: int| 0 <= x < n implies player_score(#[trigger] self.players@[x]) <= player_score(self.players@[q]) by {
                        assert(scores@[x] <= top);
                    }
                } else {
                    assert(player_score(self.players@[w]) > player_score(self.players@[q]));
                }
            }
            assert forall|kk: int| 0 <= kk < r@.len() implies is_winner(*self, #[trigger] r@[kk] as int) by {
                let q = r@[kk] as int;
                assert(has_top_score(*self, q));
                assert forall|x: int| 0 <= x < n && has_top_score(*self, x) implies self.players@[q].turns
                    <= (#[trigger] self.players@[x]).turns by {
                    assert(scores@[x] == top);
                }
            }
            assert forall|q: int| 0 <= q < n && is_winner(*self, q) implies r@.contains(q as usize) by {
                assert(scores@[q] == top);
                assert(has_top_score(*self, w));
                assert(self.players@[q].turns <= self.players@[w].turns);
                assert(fewest <= self.players@[q].turns);
            }
        }
        r
    }
}

/// Append every card of `src` to `dst`.
pub fn append_all(dst: &mut Vec<Card>, src: &Vec<Card>)
    ensures
        final(dst)@ == old(dst)@ + src@,
{
    let mut i: usize = 0;
    let ghost d0 = dst@;
    while i < src.len()
        invariant
            i <= src@.len(),
            dst@ == d0 + src@.take(i as int),
        decreases src@.len() - i,
    {
        dst.push(src[i]);
        i = i + 1;
        assert(dst@ =~= d0 + src@.take(i as int));
    }
    assert(src@.take(src@.len() as int) =~= src@);
}

/// How many copies of `card` a list holds.
pub fn count_in(v: &Vec<Card>, card: Card) -> (r: usize)
    ensures
        r == cnt(v@, card),
{
    broadcast use vstd::seq_lib::group_to_multiset_ensures, vstd::multiset::group_multiset_axioms;
    let mut n: usize = 0;
    let mut i: usize = 0;
    while i < v.len()
        invariant
            i <= v@.len(),
            n == cnt(v@.take(i as int), card),
            n <= i,
        decreases v@.len() - i,
    {
        assert(v@.take((i + 1) as int) =~= v@.take(i as int).push(v@[i as int]));
        proof {
            lemma_cnt_push(v@.take(i as int), v@[i as int], card);
        }
        if v[i] == card {
            n = n + 1;
        }
        i = i + 1;
    }
    assert(v@.take(v@.len() as int) =~= v@);
    n
}

} // verus!
