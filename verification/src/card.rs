//! The cards of Dominion's Base set, 2nd edition: 7 basic cards and 26
//! kingdom cards. Each card has a stable index in `0..NUM_CARDS`, used to
//! address supply piles and per-card counts.

use vstd::prelude::*;

verus! {

/// Number of distinct cards in the Base set.
pub const NUM_CARDS: usize = 33;

/// A card of the Base set. The declaration order is the canonical card order.
#[derive(Clone, Copy, PartialEq, Eq, PartialOrd, Ord, Hash, Debug, Structural)]
pub enum Card {
    Copper,
    Silver,
    Gold,
    Estate,
    Duchy,
    Province,
    Curse,
    Cellar,
    Chapel,
    Moat,
    Harbinger,
    Merchant,
    Vassal,
    Village,
    Workshop,
    Bureaucrat,
    Gardens,
    Militia,
    Moneylender,
    Poacher,
    Remodel,
    Smithy,
    ThroneRoom,
    Bandit,
    CouncilRoom,
    Festival,
    Laboratory,
    Library,
    Market,
    Mine,
    Sentry,
    Witch,
    Artisan,
}

/// Card type line as a set of bit flags; a card may carry several types
/// (Moat is Action and Reaction).
#[derive(Clone, Copy, PartialEq, Eq, Hash, Debug, Structural)]
pub struct Types(u8);

impl Default for Types {
    /// No types at all.
    fn default() -> (r: Self)
        ensures
            r.spec_bits() == 0,
    {
        Types(0)
    }
}

/// Bit of the Action type.
pub const ACTION_BIT: u8 = 1;
/// Bit of the Treasure type.
pub const TREASURE_BIT: u8 = 2;
/// Bit of the Victory type.
pub const VICTORY_BIT: u8 = 4;
/// Bit of the Curse type.
pub const CURSE_BIT: u8 = 8;
/// Bit of the Attack type.
pub const ATTACK_BIT: u8 = 16;
/// Bit of the Reaction type.
pub const REACTION_BIT: u8 = 32;

impl Types {
    pub closed spec fn spec_bits(self) -> u8 {
        self.0
    }

    /// The raw flag bits.
    #[verifier::when_used_as_spec(spec_bits)]
    pub fn bits(self) -> (r: u8)
        ensures
            r == self.spec_bits(),
    {
        self.0
    }

    /// A type line from raw bits; every bit pattern is kept as given.
    pub fn from_bits_truncate(bits: u8) -> (r: Types)
        ensures
            r.spec_bits() == bits,
    {
        Types(bits)
    }

    pub open spec fn spec_contains(self, other: Types) -> bool {
        (self.spec_bits() & other.spec_bits()) == other.spec_bits()
    }

    /// Whether every flag of `other` is set in `self`.
    #[verifier::when_used_as_spec(spec_contains)]
    pub fn contains(self, other: Types) -> (r: bool)
        ensures
            r == ((self.spec_bits() & other.spec_bits()) == other.spec_bits()),
    {
        (self.0 & other.0) == other.0
    }

    /// Whether `self` and `other` share at least one flag.
    pub fn intersects(self, other: Types) -> (r: bool)
        ensures
            r == ((self.spec_bits() & other.spec_bits()) != 0),
    {
        (self.0 & other.0) != 0
    }

    /// The Action type alone.
    pub fn action() -> (r: Types)
        ensures
            r.spec_bits() == ACTION_BIT,
    {
        Types(ACTION_BIT)
    }

    /// The Treasure type alone.
    pub fn treasure() -> (r: Types)
        ensures
            r.spec_bits() == TREASURE_BIT,
    {
        Types(TREASURE_BIT)
    }

    /// The Victory type alone.
    pub fn victory() -> (r: Types)
        ensures
            r.spec_bits() == VICTORY_BIT,
    {
        Types(VICTORY_BIT)
    }

    /// The Curse type alone.
    pub fn curse() -> (r: Types)
        ensures
            r.spec_bits() == CURSE_BIT,
    {
        Types(CURSE_BIT)
    }

    /// The Attack type alone.
    pub fn attack() -> (r: Types)
        ensures
            r.spec_bits() == ATTACK_BIT,
    {
        Types(ATTACK_BIT)
    }

    /// The Reaction type alone.
    pub fn reaction() -> (r: Types)
        ensures
            r.spec_bits() == REACTION_BIT,
    {
        Types(REACTION_BIT)
    }

    /// The union of two type lines.
    pub fn union(self, other: Types) -> (r: Types)
        ensures
            r.spec_bits() == (self.spec_bits() | other.spec_bits()),
    {
        Types(self.0 | other.0)
    }
}

/// The bit patterns of the six type lines that occur in the Base set, and
/// which single-type flags each of them contains.
proof fn lemma_type_bits()
    by (bit_vector)
    ensures
        (2u8 & 1u8) == 0u8, (4u8 & 1u8) == 0u8, (8u8 & 1u8) == 0u8,
        (33u8 & 1u8) == 1u8, (17u8 & 1u8) == 1u8, (1u8 & 1u8) == 1u8,
        (2u8 & 2u8) == 2u8, (4u8 & 2u8) == 0u8, (8u8 & 2u8) == 0u8,
        (33u8 & 2u8) == 0u8, (17u8 & 2u8) == 0u8, (1u8 & 2u8) == 0u8,
        (2u8 & 4u8) == 0u8, (4u8 & 4u8) == 4u8, (8u8 & 4u8) == 0u8,
        (33u8 & 4u8) == 0u8, (17u8 & 4u8) == 0u8, (1u8 & 4u8) == 0u8,
        (2u8 & 8u8) == 0u8, (4u8 & 8u8) == 0u8, (8u8 & 8u8) == 8u8,
        (33u8 & 8u8) == 0u8, (17u8 & 8u8) == 0u8, (1u8 & 8u8) == 0u8,
        (2u8 & 16u8) == 0u8, (4u8 & 16u8) == 0u8, (8u8 & 16u8) == 0u8,
        (33u8 & 16u8) == 0u8, (17u8 & 16u8) == 16u8, (1u8 & 16u8) == 0u8,
        (2u8 & 32u8) == 0u8, (4u8 & 32u8) == 0u8, (8u8 & 32u8) == 0u8,
        (33u8 & 32u8) == 32u8, (17u8 & 32u8) == 0u8, (1u8 & 32u8) == 0u8,
        (1u8 | 32u8) == 33u8, (1u8 | 16u8) == 17u8,
{
}

impl Card {
    pub open spec fn spec_idx(self) -> usize {
        match self {
            Card::Copper => 0,
            Card::Silver => 1,
            Card::Gold => 2,
            Card::Estate => 3,
            Card::Duchy => 4,
            Card::Province => 5,
            Card::Curse => 6,
            Card::Cellar => 7,
            Card::Chapel => 8,
            Card::Moat => 9,
            Card::Harbinger => 10,
            Card::Merchant => 11,
            Card::Vassal => 12,
            Card::Village => 13,
            Card::Workshop => 14,
            Card::Bureaucrat => 15,
            Card::Gardens => 16,
            Card::Militia => 17,
            Card::Moneylender => 18,
            Card::Poacher => 19,
            Card::Remodel => 20,
            Card::Smithy => 21,
            Card::ThroneRoom => 22,
            Card::Bandit => 23,
            Card::CouncilRoom => 24,
            Card::Festival => 25,
            Card::Laboratory => 26,
            Card::Library => 27,
            Card::Market => 28,
            Card::Mine => 29,
            Card::Sentry => 30,
            Card::Witch => 31,
            Card::Artisan => 32,
        }
    }

    /// Dense index of the card in `0..NUM_CARDS`, in canonical order.
    #[verifier::when_used_as_spec(spec_idx)]
    pub fn idx(self) -> (r: usize)
        ensures
            r == self.spec_idx(),
            r < NUM_CARDS,
    {
        match self {
            Card::Copper => 0,
            Card::Silver => 1,
            Card::Gold => 2,
            Card::Estate => 3,
            Card::Duchy => 4,
            Card::Province => 5,
            Card::Curse => 6,
            Card::Cellar => 7,
            Card::Chapel => 8,
            Card::Moat => 9,
            Card::Harbinger => 10,
            Card::Merchant => 11,
            Card::Vassal => 12,
            Card::Village => 13,
            Card::Workshop => 14,
            Card::Bureaucrat => 15,
            Card::Gardens => 16,
            Card::Militia => 17,
            Card::Moneylender => 18,
            Card::Poacher => 19,
            Card::Remodel => 20,
            Card::Smithy => 21,
            Card::ThroneRoom => 22,
            Card::Bandit => 23,
            Card::CouncilRoom => 24,
            Card::Festival => 25,
            Card::Laboratory => 26,
            Card::Library => 27,
            Card::Market => 28,
            Card::Mine => 29,
            Card::Sentry => 30,
            Card::Witch => 31,
            Card::Artisan => 32,
        }
    }

    pub open spec fn spec_from_idx(i: usize) -> Card {
        match i {
            0 => Card::Copper,
            1 => Card::Silver,
            2 => Card::Gold,
            3 => Card::Estate,
            4 => Card::Duchy,
            5 => Card::Province,
            6 => Card::Curse,
            7 => Card::Cellar,
            8 => Card::Chapel,
            9 => Card::Moat,
            10 => Card::Harbinger,
            11 => Card::Merchant,
            12 => Card::Vassal,
            13 => Card::Village,
            14 => Card::Workshop,
            15 => Card::Bureaucrat,
            16 => Card::Gardens,
            17 => Card::Militia,
            18 => Card::Moneylender,
            19 => Card::Poacher,
            20 => Card::Remodel,
            21 => Card::Smithy,
            22 => Card::ThroneRoom,
            23 => Card::Bandit,
            24 => Card::CouncilRoom,
            25 => Card::Festival,
            26 => Card::Laboratory,
            27 => Card::Library,
            28 => Card::Market,
            29 => Card::Mine,
            30 => Card::Sentry,
            31 => Card::Witch,
            _ => Card::Artisan,
        }
    }

    /// The card with index `i`.
    #[verifier::when_used_as_spec(spec_from_idx)]
    pub fn from_idx(i: usize) -> (r: Card)
        requires
            i < NUM_CARDS,
        ensures
            r == Card::spec_from_idx(i),
            r.spec_idx() == i,
    {
        match i {
            0 => Card::Copper,
            1 => Card::Silver,
            2 => Card::Gold,
            3 => Card::Estate,
            4 => Card::Duchy,
            5 => Card::Province,
            6 => Card::Curse,
            7 => Card::Cellar,
            8 => Card::Chapel,
            9 => Card::Moat,
            10 => Card::Harbinger,
            11 => Card::Merchant,
            12 => Card::Vassal,
            13 => Card::Village,
            14 => Card::Workshop,
            15 => Card::Bureaucrat,
            16 => Card::Gardens,
            17 => Card::Militia,
            18 => Card::Moneylender,
            19 => Card::Poacher,
            20 => Card::Remodel,
            21 => Card::Smithy,
            22 => Card::ThroneRoom,
            23 => Card::Bandit,
            24 => Card::CouncilRoom,
            25 => Card::Festival,
            26 => Card::Laboratory,
            27 => Card::Library,
            28 => Card::Market,
            29 => Card::Mine,
            30 => Card::Sentry,
            31 => Card::Witch,
            _ => Card::Artisan,
        }
    }

    pub open spec fn spec_cost(self) -> u8 {
        match self {
            Card::Copper | Card::Curse => 0,
            Card::Estate | Card::Cellar | Card::Chapel | Card::Moat => 2,
            Card::Silver | Card::Harbinger | Card::Merchant | Card::Vassal | Card::Village
            | Card::Workshop => 3,
            Card::Bureaucrat | Card::Gardens | Card::Militia | Card::Moneylender | Card::Poacher
            | Card::Remodel | Card::Smithy | Card::ThroneRoom => 4,
            Card::Duchy | Card::Bandit | Card::CouncilRoom | Card::Festival | Card::Laboratory
            | Card::Library | Card::Market | Card::Mine | Card::Sentry | Card::Witch => 5,
            Card::Gold | Card::Artisan => 6,
            Card::Province => 8,
        }
    }

    /// The card's price in coins.
    #[verifier::when_used_as_spec(spec_cost)]
    pub fn cost(self) -> (r: u8)
        ensures
            r == self.spec_cost(),
            r <= 8,
    {
        match self {
            Card::Copper | Card::Curse => 0,
            Card::Estate | Card::Cellar | Card::Chapel | Card::Moat => 2,
            Card::Silver | Card::Harbinger | Card::Merchant | Card::Vassal | Card::Village
            | Card::Workshop => 3,
            Card::Bureaucrat | Card::Gardens | Card::Militia | Card::Moneylender | Card::Poacher
            | Card::Remodel | Card::Smithy | Card::ThroneRoom => 4,
            Card::Duchy | Card::Bandit | Card::CouncilRoom | Card::Festival | Card::Laboratory
            | Card::Library | Card::Market | Card::Mine | Card::Sentry | Card::Witch => 5,
            Card::Gold | Card::Artisan => 6,
            Card::Province => 8,
        }
    }

    /// The type-line bits of the card.
    pub open spec fn type_bits(self) -> u8 {
        match self {
            Card::Copper | Card::Silver | Card::Gold => TREASURE_BIT,
            Card::Estate | Card::Duchy | Card::Province | Card::Gardens => VICTORY_BIT,
            Card::Curse => CURSE_BIT,
            Card::Moat => 33,
            Card::Bureaucrat | Card::Militia | Card::Bandit | Card::Witch => 17,
            _ => ACTION_BIT,
        }
    }

    /// The card's type line.
    pub fn types(self) -> (r: Types)
        ensures
            r.spec_bits() == self.type_bits(),
    {
        let bits: u8 = match self {
            Card::Copper | Card::Silver | Card::Gold => TREASURE_BIT,
            Card::Estate | Card::Duchy | Card::Province | Card::Gardens => VICTORY_BIT,
            Card::Curse => CURSE_BIT,
            Card::Moat => ACTION_BIT | REACTION_BIT,
            Card::Bureaucrat | Card::Militia | Card::Bandit | Card::Witch => ACTION_BIT | ATTACK_BIT,
            _ => ACTION_BIT,
        };
        proof {
            lemma_type_bits();
        }
        Types::from_bits_truncate(bits)
    }

    pub open spec fn spec_is_action(self) -> bool {
        match self {
            Card::Copper | Card::Silver | Card::Gold | Card::Estate | Card::Duchy
            | Card::Province | Card::Gardens | Card::Curse => false,
            _ => true,
        }
    }

    pub open spec fn spec_is_treasure(self) -> bool {
        self == Card::Copper || self == Card::Silver || self == Card::Gold
    }

    pub open spec fn spec_is_victory(self) -> bool {
        self == Card::Estate || self == Card::Duchy || self == Card::Province
            || self == Card::Gardens
    }

    pub open spec fn spec_is_curse(self) -> bool {
        self == Card::Curse
    }

    pub open spec fn spec_is_attack(self) -> bool {
        self == Card::Bureaucrat || self == Card::Militia || self == Card::Bandit
            || self == Card::Witch
    }

    pub open spec fn spec_is_reaction(self) -> bool {
        self == Card::Moat
    }

    /// Whether the card is an Action.
    #[verifier::when_used_as_spec(spec_is_action)]
    pub fn is_action(self) -> (r: bool)
        ensures
            r == self.spec_is_action(),
    {
        proof {
            lemma_type_bits();
        }
        self.types().contains(Types::action())
    }

    /// Whether the card is a Treasure.
    #[verifier::when_used_as_spec(spec_is_treasure)]
    pub fn is_treasure(self) -> (r: bool)
        ensures
            r == self.spec_is_treasure(),
    {
        proof {
            lemma_type_bits();
        }
        self.types().contains(Types::treasure())
    }

    /// Whether the card is a Victory card.
    #[verifier::when_used_as_spec(spec_is_victory)]
    pub fn is_victory(self) -> (r: bool)
        ensures
            r == self.spec_is_victory(),
    {
        proof {
            lemma_type_bits();
        }
        self.types().contains(Types::victory())
    }

    /// Whether the card is a Curse.
    #[verifier::when_used_as_spec(spec_is_curse)]
    pub fn is_curse(self) -> (r: bool)
        ensures
            r == self.spec_is_curse(),
    {
        proof {
            lemma_type_bits();
        }
        self.types().contains(Types::curse())
    }

    /// Whether the card is an Attack.
    #[verifier::when_used_as_spec(spec_is_attack)]
    pub fn is_attack(self) -> (r: bool)
        ensures
            r == self.spec_is_attack(),
    {
        proof {
            lemma_type_bits();
        }
        self.types().contains(Types::attack())
    }

    /// Whether the card is a Reaction.
    #[verifier::when_used_as_spec(spec_is_reaction)]
    pub fn is_reaction(self) -> (r: bool)
        ensures
            r == self.spec_is_reaction(),
    {
        proof {
            lemma_type_bits();
        }
        self.types().contains(Types::reaction())
    }

    pub open spec fn spec_coin_value(self) -> u8 {
        match self {
            Card::Copper => 1,
            Card::Silver => 2,
            Card::Gold => 3,
            _ => 0,
        }
    }

    /// Coins the card produces when played as a Treasure.
    #[verifier::when_used_as_spec(spec_coin_value)]
    pub fn coin_value(self) -> (r: u8)
        ensures
            r == self.spec_coin_value(),
    {
        match self {
            Card::Copper => 1,
            Card::Silver => 2,
            Card::Gold => 3,
            _ => 0,
        }
    }

    pub open spec fn spec_static_vp(self) -> i32 {
        match self {
            Card::Estate => 1i32,
            Card::Duchy => 3i32,
            Card::Province => 6i32,
            Card::Curse => -1i32,
            _ => 0,
        }
    }

    /// Fixed victory points; Gardens is worth a variable amount and scores 0 here.
    #[verifier::when_used_as_spec(spec_static_vp)]
    pub fn static_vp(self) -> (r: i32)
        ensures
            r == self.spec_static_vp(),
    {
        match self {
            Card::Estate => 1,
            Card::Duchy => 3,
            Card::Province => 6,
            Card::Curse => -1,
            _ => 0,
        }
    }

    pub open spec fn spec_name(self) -> &'static str {
        match self {
            Card::Copper => "Copper",
            Card::Silver => "Silver",
            Card::Gold => "Gold",
            Card::Estate => "Estate",
            Card::Duchy => "Duchy",
            Card::Province => "Province",
            Card::Curse => "Curse",
            Card::Cellar => "Cellar",
            Card::Chapel => "Chapel",
            Card::Moat => "Moat",
            Card::Harbinger => "Harbinger",
            Card::Merchant => "Merchant",
            Card::Vassal => "Vassal",
            Card::Village => "Village",
            Card::Workshop => "Workshop",
            Card::Bureaucrat => "Bureaucrat",
            Card::Gardens => "Gardens",
            Card::Militia => "Militia",
            Card::Moneylender => "Moneylender",
            Card::Poacher => "Poacher",
            Card::Remodel => "Remodel",
            Card::Smithy => "Smithy",
            Card::ThroneRoom => "Throne Room",
            Card::Bandit => "Bandit",
            Card::CouncilRoom => "Council Room",
            Card::Festival => "Festival",
            Card::Laboratory => "Laboratory",
            Card::Library => "Library",
            Card::Market => "Market",
            Card::Mine => "Mine",
            Card::Sentry => "Sentry",
            Card::Witch => "Witch",
            Card::Artisan => "Artisan",
        }
    }

    /// The characters of the card's printed name.
    pub open spec fn name_chars(self) -> Seq<char> {
        match self {
            Card::Copper => seq!['C', 'o', 'p', 'p', 'e', 'r'],
            Card::Silver => seq!['S', 'i', 'l', 'v', 'e', 'r'],
            Card::Gold => seq!['G', 'o', 'l', 'd'],
            Card::Estate => seq!['E', 's', 't', 'a', 't', 'e'],
            Card::Duchy => seq!['D', 'u', 'c', 'h', 'y'],
            Card::Province => seq!['P', 'r', 'o', 'v', 'i', 'n', 'c', 'e'],
            Card::Curse => seq!['C', 'u', 'r', 's', 'e'],
            Card::Cellar => seq!['C', 'e', 'l', 'l', 'a', 'r'],
            Card::Chapel => seq!['C', 'h', 'a', 'p', 'e', 'l'],
            Card::Moat => seq!['M', 'o', 'a', 't'],
            Card::Harbinger => seq!['H', 'a', 'r', 'b', 'i', 'n', 'g', 'e', 'r'],
            Card::Merchant => seq!['M', 'e', 'r', 'c', 'h', 'a', 'n', 't'],
            Card::Vassal => seq!['V', 'a', 's', 's', 'a', 'l'],
            Card::Village => seq!['V', 'i', 'l', 'l', 'a', 'g', 'e'],
            Card::Workshop => seq!['W', 'o', 'r', 'k', 's', 'h', 'o', 'p'],
            Card::Bureaucrat => seq!['B', 'u', 'r', 'e', 'a', 'u', 'c', 'r', 'a', 't'],
            Card::Gardens => seq!['G', 'a', 'r', 'd', 'e', 'n', 's'],
            Card::Militia => seq!['M', 'i', 'l', 'i', 't', 'i', 'a'],
            Card::Moneylender => seq!['M', 'o', 'n', 'e', 'y', 'l', 'e', 'n', 'd', 'e', 'r'],
            Card::Poacher => seq!['P', 'o', 'a', 'c', 'h', 'e', 'r'],
            Card::Remodel => seq!['R', 'e', 'm', 'o', 'd', 'e', 'l'],
            Card::Smithy => seq!['S', 'm', 'i', 't', 'h', 'y'],
            Card::ThroneRoom => seq!['T', 'h', 'r', 'o', 'n', 'e', ' ', 'R', 'o', 'o', 'm'],
            Card::Bandit => seq!['B', 'a', 'n', 'd', 'i', 't'],
            Card::CouncilRoom => seq!['C', 'o', 'u', 'n', 'c', 'i', 'l', ' ', 'R', 'o', 'o', 'm'],
            Card::Festival => seq!['F', 'e', 's', 't', 'i', 'v', 'a', 'l'],
            Card::Laboratory => seq!['L', 'a', 'b', 'o', 'r', 'a', 't', 'o', 'r', 'y'],
            Card::Library => seq!['L', 'i', 'b', 'r', 'a', 'r', 'y'],
            Card::Market => seq!['M', 'a', 'r', 'k', 'e', 't'],
            Card::Mine => seq!['M', 'i', 'n', 'e'],
            Card::Sentry => seq!['S', 'e', 'n', 't', 'r', 'y'],
            Card::Witch => seq!['W', 'i', 't', 'c', 'h'],
            Card::Artisan => seq!['A', 'r', 't', 'i', 's', 'a', 'n'],
        }
    }

    /// The card's printed name.
    #[verifier::when_used_as_spec(spec_name)]
    pub fn name(self) -> (r: &'static str)
        ensures
            r == self.spec_name(),
            r@ == self.name_chars(),
    {
        proof {
            lemma_name_chars(self);
        }
        match self {
            Card::Copper => "Copper",
            Card::Silver => "Silver",
            Card::Gold => "Gold",
            Card::Estate => "Estate",
            Card::Duchy => "Duchy",
            Card::Province => "Province",
            Card::Curse => "Curse",
            Card::Cellar => "Cellar",
            Card::Chapel => "Chapel",
            Card::Moat => "Moat",
            Card::Harbinger => "Harbinger",
            Card::Merchant => "Merchant",
            Card::Vassal => "Vassal",
            Card::Village => "Village",
            Card::Workshop => "Workshop",
            Card::Bureaucrat => "Bureaucrat",
            Card::Gardens => "Gardens",
            Card::Militia => "Militia",
            Card::Moneylender => "Moneylender",
            Card::Poacher => "Poacher",
            Card::Remodel => "Remodel",
            Card::Smithy => "Smithy",
            Card::ThroneRoom => "Throne Room",
            Card::Bandit => "Bandit",
            Card::CouncilRoom => "Council Room",
            Card::Festival => "Festival",
            Card::Laboratory => "Laboratory",
            Card::Library => "Library",
            Card::Market => "Market",
            Card::Mine => "Mine",
            Card::Sentry => "Sentry",
            Card::Witch => "Witch",
            Card::Artisan => "Artisan",
        }
    }
}

/// Index and card correspond one to one.
pub proof fn lemma_idx_roundtrip(c: Card, i: usize)
    ensures
        Card::spec_from_idx(c.spec_idx()) == c,
        i < NUM_CARDS ==> Card::spec_from_idx(i).spec_idx() == i,
{
}

/// Two cards with the same index are the same card.
pub proof fn lemma_idx_injective(a: Card, b: Card)
    ensures
        a.spec_idx() == b.spec_idx() <==> a == b,
{
    lemma_idx_roundtrip(a, 0);
    lemma_idx_roundtrip(b, 0);
}

/// A card's name literal spells its name characters.
pub proof fn lemma_name_chars(c: Card)
    ensures
        c.spec_name()@ == c.name_chars(),
{
        reveal_strlit("Copper");
        reveal_strlit("Silver");
        reveal_strlit("Gold");
        reveal_strlit("Estate");
        reveal_strlit("Duchy");
        reveal_strlit("Province");
        reveal_strlit("Curse");
        reveal_strlit("Cellar");
        reveal_strlit("Chapel");
        reveal_strlit("Moat");
        reveal_strlit("Harbinger");
        reveal_strlit("Merchant");
        reveal_strlit("Vassal");
        reveal_strlit("Village");
        reveal_strlit("Workshop");
        reveal_strlit("Bureaucrat");
        reveal_strlit("Gardens");
        reveal_strlit("Militia");
        reveal_strlit("Moneylender");
        reveal_strlit("Poacher");
        reveal_strlit("Remodel");
        reveal_strlit("Smithy");
        reveal_strlit("Throne Room");
        reveal_strlit("Bandit");
        reveal_strlit("Council Room");
        reveal_strlit("Festival");
        reveal_strlit("Laboratory");
        reveal_strlit("Library");
        reveal_strlit("Market");
        reveal_strlit("Mine");
        reveal_strlit("Sentry");
        reveal_strlit("Witch");
        reveal_strlit("Artisan");
}

/// Every card of the Base set, in canonical order.
pub open spec fn spec_all_cards() -> Seq<Card> {
    Seq::new(NUM_CARDS as nat, |i: int| Card::spec_from_idx(i as usize))
}

/// Whether a card is one of the 26 kingdom cards.
pub open spec fn is_kingdom(c: Card) -> bool {
    c.spec_idx() >= 7
}

/// The prices printed on the cards.
pub proof fn lemma_printed_costs()
    ensures
        Card::Copper.spec_cost() == 0,
        Card::Curse.spec_cost() == 0,
        Card::Estate.spec_cost() == 2,
        Card::Cellar.spec_cost() == 2,
        Card::Chapel.spec_cost() == 2,
        Card::Moat.spec_cost() == 2,
        Card::Silver.spec_cost() == 3,
        Card::Harbinger.spec_cost() == 3,
        Card::Merchant.spec_cost() == 3,
        Card::Vassal.spec_cost() == 3,
        Card::Village.spec_cost() == 3,
        Card::Workshop.spec_cost() == 3,
        Card::Bureaucrat.spec_cost() == 4,
        Card::Gardens.spec_cost() == 4,
        Card::Militia.spec_cost() == 4,
        Card::Moneylender.spec_cost() == 4,
        Card::Poacher.spec_cost() == 4,
        Card::Remodel.spec_cost() == 4,
        Card::Smithy.spec_cost() == 4,
        Card::ThroneRoom.spec_cost() == 4,
        Card::Duchy.spec_cost() == 5,
        Card::Bandit.spec_cost() == 5,
        Card::CouncilRoom.spec_cost() == 5,
        Card::Festival.spec_cost() == 5,
        Card::Laboratory.spec_cost() == 5,
        Card::Library.spec_cost() == 5,
        Card::Market.spec_cost() == 5,
        Card::Mine.spec_cost() == 5,
        Card::Sentry.spec_cost() == 5,
        Card::Witch.spec_cost() == 5,
        Card::Gold.spec_cost() == 6,
        Card::Artisan.spec_cost() == 6,
        Card::Province.spec_cost() == 8,
{
}

/// What the Treasures pay and what the Victory cards and Curse are worth:
/// Copper $1, Silver $2, Gold $3, nothing for any other card; Estate 1,
/// Duchy 3, Province 6, Curse -1, and no fixed points for any other card
/// (Gardens counts by deck size).
pub proof fn lemma_printed_values(c: Card)
    ensures
        Card::Copper.spec_coin_value() == 1,
        Card::Silver.spec_coin_value() == 2,
        Card::Gold.spec_coin_value() == 3,
        !c.spec_is_treasure() ==> c.spec_coin_value() == 0,
        c.spec_is_treasure() <==> (c == Card::Copper || c == Card::Silver || c == Card::Gold),
        Card::Estate.spec_static_vp() == 1,
        Card::Duchy.spec_static_vp() == 3,
        Card::Province.spec_static_vp() == 6,
        Card::Curse.spec_static_vp() == -1,
        c != Card::Estate && c != Card::Duchy && c != Card::Province && c != Card::Curse ==> c.spec_static_vp() == 0,
        c.spec_is_victory() <==> (c == Card::Estate || c == Card::Duchy || c == Card::Province || c == Card::Gardens),
        c.spec_is_attack() <==> (c == Card::Bureaucrat || c == Card::Militia || c == Card::Bandit || c == Card::Witch),
        c.spec_is_reaction() <==> c == Card::Moat,
        c.spec_is_action() <==> !(c.spec_is_treasure() || c.spec_is_victory() || c == Card::Curse),
{
}

/// The 26 kingdom cards, in supply order.
pub open spec fn spec_kingdom_cards() -> Seq<Card> {
    Seq::new(26, |i: int| Card::spec_from_idx((i + 7) as usize))
}

/// The 7 basic cards.
pub open spec fn spec_basic_cards() -> Seq<Card> {
    Seq::new(7, |i: int| Card::spec_from_idx(i as usize))
}

/// All cards, in canonical order.
pub fn all_cards() -> (v: Vec<Card>)
    ensures
        v@ == spec_all_cards(),
{
    let mut v: Vec<Card> = Vec::new();
    let mut i: usize = 0;
    while i < NUM_CARDS
        invariant
            i <= NUM_CARDS,
            v@ == spec_all_cards().take(i as int),
        decreases NUM_CARDS - i,
    {
        v.push(Card::from_idx(i));
        i += 1;
        assert(v@ =~= spec_all_cards().take(i as int));
    }
    assert(v@ =~= spec_all_cards());
    v
}

/// The 26 kingdom cards of Base 2E, in supply order.
pub fn kingdom_cards() -> (v: Vec<Card>)
    ensures
        v@ == spec_kingdom_cards(),
{
    let mut v: Vec<Card> = Vec::new();
    let mut i: usize = 7;
    while i < NUM_CARDS
        invariant
            7 <= i <= NUM_CARDS,
            v@ == spec_kingdom_cards().take(i - 7),
        decreases NUM_CARDS - i,
    {
        v.push(Card::from_idx(i));
        i += 1;
        assert(v@ =~= spec_kingdom_cards().take(i - 7));
    }
    assert(v@ =~= spec_kingdom_cards());
    v
}

/// The 7 basic supply cards.
pub fn basic_cards() -> (v: Vec<Card>)
    ensures
        v@ == spec_basic_cards(),
{
    let mut v: Vec<Card> = Vec::new();
    let mut i: usize = 0;
    while i < 7
        invariant
            i <= 7,
            v@ == spec_basic_cards().take(i as int),
        decreases 7 - i,
    {
        v.push(Card::from_idx(i));
        i += 1;
        assert(v@ =~= spec_basic_cards().take(i as int));
    }
    assert(v@ =~= spec_basic_cards());
    v
}

/// Whether `c` is a kingdom card.
pub fn is_kingdom_card(c: Card) -> (r: bool)
    ensures
        r == is_kingdom(c),
        r == spec_kingdom_cards().contains(c),
{
    proof {
        lemma_kingdom_contains(c);
    }
    c.idx() >= 7
}

/// A card is in a filtered list of all cards exactly when it passes the filter.
pub proof fn lemma_filter_all_cards(pred: spec_fn(Card) -> bool, c: Card)
    ensures
        spec_all_cards().filter(pred).contains(c) <==> pred(c),
{
    broadcast use vstd::seq_lib::group_filter_ensures;
    let all = spec_all_cards();
    lemma_idx_roundtrip(c, 0);
    assert(all[c.spec_idx() as int] == c);
    if pred(c) {
        all.lemma_filter_contains(pred, c.spec_idx() as int);
    }
    if all.filter(pred).contains(c) {
        let i = choose|i: int| 0 <= i < all.filter(pred).len() && all.filter(pred)[i] == c;
        all.lemma_filter_pred(pred, i);
    }
}

/// Filtering the card list keeps at most all of its cards.
pub proof fn lemma_filter_len_all(pred: spec_fn(Card) -> bool)
    ensures
        spec_all_cards().filter(pred).len() <= NUM_CARDS,
{
    broadcast use vstd::seq_lib::group_filter_ensures;
    spec_all_cards().lemma_filter_len(pred);
}

/// Membership in the kingdom list is the same as having an index of at least 7.
pub proof fn lemma_kingdom_contains(c: Card)
    ensures
        spec_kingdom_cards().contains(c) <==> is_kingdom(c),
{
    if is_kingdom(c) {
        let i = c.spec_idx() - 7;
        lemma_idx_roundtrip(c, 0);
        assert(spec_kingdom_cards()[i as int] == c);
    }
    if spec_kingdom_cards().contains(c) {
        let i = choose|i: int| 0 <= i < 26 && spec_kingdom_cards()[i] == c;
        lemma_idx_roundtrip(c, (i + 7) as usize);
    }
}

// ------------------------------------------------------------ names

/// ASCII letters and digits: the characters that matter in a card name.
pub open spec fn is_ascii_alnum(ch: char) -> bool {
    let u = ch as u32;
    (48 <= u <= 57) || (65 <= u <= 90) || (97 <= u <= 122)
}

/// The code of a character with ASCII upper case folded to lower case.
pub open spec fn lower_code(ch: char) -> u32 {
    let u = ch as u32;
    if 65 <= u <= 90 { (u + 32) as u32 } else { u }
}

/// A name reduced to what identifies it: its ASCII letters and digits, in
/// lower case, everything else dropped.
pub open spec fn norm(s: Seq<char>) -> Seq<u32>
    decreases s.len(),
{
    if s.len() == 0 {
        Seq::empty()
    } else {
        let r = norm(s.drop_last());
        if is_ascii_alnum(s.last()) {
            r.push(lower_code(s.last()))
        } else {
            r
        }
    }
}

/// Among the first `k` cards in canonical order, the first whose name
/// normalises to `w`.
pub open spec fn named_among(k: nat, w: Seq<u32>) -> Option<Card>
    decreases k,
{
    if k == 0 {
        None
    } else {
        match named_among((k - 1) as nat, w) {
            Some(c) => Some(c),
            None => {
                let c = Card::spec_from_idx((k - 1) as usize);
                if norm(c.name_chars()) == w {
                    Some(c)
                } else {
                    None
                }
            },
        }
    }
}

/// The card a text names: the first card, in canonical order, whose name
/// agrees with the text once both are normalised.
pub open spec fn spec_parse_card(s: Seq<char>) -> Option<Card> {
    named_among(NUM_CARDS as nat, norm(s))
}

/// Reduce a name to its lower-case ASCII letters and digits.
fn normalize(v: &Vec<char>) -> (r: Vec<u32>)
    ensures
        r@ == norm(v@),
{
    let mut r: Vec<u32> = Vec::new();
    let mut i: usize = 0;
    while i < v.len()
        invariant
            i <= v@.len(),
            r@ == norm(v@.take(i as int)),
        decreases v@.len() - i,
    {
        assert(v@.take((i + 1) as int).drop_last() =~= v@.take(i as int));
        let ch = v[i];
        let u = ch as u32;
        if (48 <= u && u <= 57) || (97 <= u && u <= 122) {
            r.push(u);
        } else if 65 <= u && u <= 90 {
            r.push(u + 32);
        }
        i = i + 1;
    }
    assert(v@.take(v@.len() as int) =~= v@);
    r
}

/// Whether two code lists are equal.
fn same_codes(a: &Vec<u32>, b: &Vec<u32>) -> (r: bool)
    ensures
        r == (a@ == b@),
{
    if a.len() != b.len() {
        return false;
    }
    let mut i: usize = 0;
    while i < a.len()
        invariant
            a@.len() == b@.len(),
            i <= a@.len(),
            forall|j: int| 0 <= j < i ==> a@[j] == b@[j],
        decreases a@.len() - i,
    {
        if a[i] != b[i] {
            return false;
        }
        i = i + 1;
    }
    assert(a@ =~= b@);
    true
}

impl Card {
    /// Parse a card by name. Accepts the printed name with or without
    /// spaces, case-insensitively ("Throne Room", "throneroom", "THRONE ROOM").
    pub fn parse(s: &str) -> (r: Option<Card>)
        ensures
            r == spec_parse_card(s@),
    {
        Card::parse_chars(&crate::text::to_chars(s))
    }

    /// Parse a card by name, given as characters.
    pub fn parse_chars(s: &Vec<char>) -> (r: Option<Card>)
        ensures
            r == spec_parse_card(s@),
    {
        let want = normalize(s);
        let mut i: usize = 0;
        while i < NUM_CARDS
            invariant
                i <= NUM_CARDS,
                want@ == norm(s@),
                named_among(i as nat, want@) is None,
            decreases NUM_CARDS - i,
        {
            let c = Card::from_idx(i);
            let name = normalize(&crate::text::to_chars(c.name()));
            if same_codes(&name, &want) {
                proof {
                    lemma_named_among_found(i as nat + 1, want@);
                }
                return Some(c);
            }
            i = i + 1;
        }
        None
    }
}

/// Once the first `k` cards hold a match, the first of all cards is it.
proof fn lemma_named_among_found(k: nat, w: Seq<u32>)
    requires
        k <= NUM_CARDS,
        named_among(k, w) is Some,
    ensures
        named_among(NUM_CARDS as nat, w) == named_among(k, w),
    decreases NUM_CARDS - k,
{
    if k < NUM_CARDS {
        lemma_named_among_found(k + 1, w);
    }
}

// ------------------------------------------------------------ card counts

/// A multiset of cards, stored as counts indexed by [`Card::idx`].
#[derive(Clone, Copy, PartialEq, Eq, Debug)]
pub struct CardCounts(pub [u8; NUM_CARDS]);

/// The sum of a sequence of counts.
pub open spec fn count_sum(s: Seq<u8>) -> int
    decreases s.len(),
{
    if s.len() == 0 {
        0
    } else {
        count_sum(s.drop_last()) + s.last()
    }
}

/// The (card, count) pairs with a non-zero count among the first `k`
/// indices, in canonical order.
pub open spec fn nonzero_counts(counts: Seq<u8>, k: int) -> Seq<(Card, u8)>
    decreases k,
{
    if k <= 0 {
        Seq::empty()
    } else {
        let rest = nonzero_counts(counts, k - 1);
        if counts[k - 1] > 0 {
            rest.push((Card::spec_from_idx((k - 1) as usize), counts[k - 1]))
        } else {
            rest
        }
    }
}

impl Default for CardCounts {
    fn default() -> (r: Self)
        ensures
            forall|i: int| 0 <= i < NUM_CARDS ==> r.0@[i] == 0,
    {
        Self::new()
    }
}

impl CardCounts {
    /// No cards.
    pub fn new() -> (r: Self)
        ensures
            forall|i: int| 0 <= i < NUM_CARDS ==> r.0@[i] == 0,
    {
        CardCounts([0u8; NUM_CARDS])
    }

    /// The counts of a list of cards; no card may occur more than 255 times.
    pub fn from_slice(cards: &[Card]) -> (r: Self)
        requires
            forall|c: Card| #[trigger] cards@.to_multiset().count(c) <= 255,
        ensures
            forall|c: Card| #[trigger] r.0@[c.spec_idx() as int] == cards@.to_multiset().count(c),
    {
        broadcast use vstd::seq_lib::group_to_multiset_ensures, vstd::multiset::group_multiset_axioms;
        let mut r = Self::new();
        let mut i: usize = 0;
        while i < cards.len()
            invariant
                i <= cards@.len(),
                forall|c: Card| #[trigger] cards@.to_multiset().count(c) <= 255,
                forall|c: Card| #[trigger] r.0@[c.spec_idx() as int] == cards@.take(i as int).to_multiset().count(c),
            decreases cards@.len() - i,
        {
            let card = cards[i];
            let k = card.idx();
            proof {
                let pre = cards@.take(i as int);
                let post = cards@.take((i + 1) as int);
                assert(post =~= pre.push(card));
                vstd::seq_lib::to_multiset_build(pre, card);
                assert(cards@ =~= post + cards@.skip((i + 1) as int));
                vstd::seq_lib::lemma_multiset_commutative(post, cards@.skip((i + 1) as int));
                assert(cards@.to_multiset().count(card) == post.to_multiset().count(card)
                    + cards@.skip((i + 1) as int).to_multiset().count(card));
                assert(post.to_multiset().count(card) <= 255);
                assert(r.0@[card.spec_idx() as int] == pre.to_multiset().count(card));
                assert(post.to_multiset().count(card) == pre.to_multiset().count(card) + 1);
            }
            let ghost before = r.0@;
            r.0[k] = r.0[k] + 1;
            proof {
                assert forall|c: Card| #[trigger] r.0@[c.spec_idx() as int] == cards@.take((i + 1) as int).to_multiset().count(c) by {
                    lemma_idx_injective(c, card);
                    if c != card {
                        assert(r.0@[c.spec_idx() as int] == before[c.spec_idx() as int]);
                    }
                }
            }
            i = i + 1;
        }
        assert(cards@.take(cards@.len() as int) =~= cards@);
        r
    }

    /// Copies of `card`.
    pub fn get(&self, card: Card) -> (r: u8)
        ensures
            r == self.0@[card.spec_idx() as int],
    {
        self.0[card.idx()]
    }

    /// Add `n` copies of `card`, which must keep its count within 255.
    pub fn add(&mut self, card: Card, n: u8)
        requires
            old(self).0@[card.spec_idx() as int] + n <= 255,
        ensures
            final(self).0@ == old(self).0@.update(card.spec_idx() as int, (old(self).0@[card.spec_idx() as int] + n) as u8),
    {
        let k = card.idx();
        self.0[k] = self.0[k] + n;
    }

    /// Total number of cards.
    pub fn total(&self) -> (r: u32)
        ensures
            r == count_sum(self.0@),
    {
        let mut t: u32 = 0;
        let mut i: usize = 0;
        while i < NUM_CARDS
            invariant
                i <= NUM_CARDS,
                self.0@.len() == NUM_CARDS,
                t == count_sum(self.0@.take(i as int)),
                t <= 255 * i,
            decreases NUM_CARDS - i,
        {
            assert(self.0@.take((i + 1) as int).drop_last() =~= self.0@.take(i as int));
            t = t + self.0[i] as u32;
            i = i + 1;
        }
        assert(self.0@.take(NUM_CARDS as int) =~= self.0@);
        t
    }

    /// The cards present and their counts, in canonical order.
    pub fn iter(&self) -> (r: Vec<(Card, u8)>)
        ensures
            r@ == nonzero_counts(self.0@, NUM_CARDS as int),
    {
        let mut r: Vec<(Card, u8)> = Vec::new();
        let mut i: usize = 0;
        while i < NUM_CARDS
            invariant
                i <= NUM_CARDS,
                self.0@.len() == NUM_CARDS,
                r@ == nonzero_counts(self.0@, i as int),
            decreases NUM_CARDS - i,
        {
            let n = self.0[i];
            if n > 0 {
                r.push((Card::from_idx(i), n));
            }
            i = i + 1;
        }
        r
    }
}


/// A card's name reduced by [`norm`]: its letters, in lower case.
pub open spec fn name_codes(c: Card) -> Seq<u32> {
    match c {
        Card::Copper => seq![99u32, 111u32, 112u32, 112u32, 101u32, 114u32],
        Card::Silver => seq![115u32, 105u32, 108u32, 118u32, 101u32, 114u32],
        Card::Gold => seq![103u32, 111u32, 108u32, 100u32],
        Card::Estate => seq![101u32, 115u32, 116u32, 97u32, 116u32, 101u32],
        Card::Duchy => seq![100u32, 117u32, 99u32, 104u32, 121u32],
        Card::Province => seq![112u32, 114u32, 111u32, 118u32, 105u32, 110u32, 99u32, 101u32],
        Card::Curse => seq![99u32, 117u32, 114u32, 115u32, 101u32],
        Card::Cellar => seq![99u32, 101u32, 108u32, 108u32, 97u32, 114u32],
        Card::Chapel => seq![99u32, 104u32, 97u32, 112u32, 101u32, 108u32],
        Card::Moat => seq![109u32, 111u32, 97u32, 116u32],
        Card::Harbinger => seq![104u32, 97u32, 114u32, 98u32, 105u32, 110u32, 103u32, 101u32, 114u32],
        Card::Merchant => seq![109u32, 101u32, 114u32, 99u32, 104u32, 97u32, 110u32, 116u32],
        Card::Vassal => seq![118u32, 97u32, 115u32, 115u32, 97u32, 108u32],
        Card::Village => seq![118u32, 105u32, 108u32, 108u32, 97u32, 103u32, 101u32],
        Card::Workshop => seq![119u32, 111u32, 114u32, 107u32, 115u32, 104u32, 111u32, 112u32],
        Card::Bureaucrat => seq![98u32, 117u32, 114u32, 101u32, 97u32, 117u32, 99u32, 114u32, 97u32, 116u32],
        Card::Gardens => seq![103u32, 97u32, 114u32, 100u32, 101u32, 110u32, 115u32],
        Card::Militia => seq![109u32, 105u32, 108u32, 105u32, 116u32, 105u32, 97u32],
        Card::Moneylender => seq![109u32, 111u32, 110u32, 101u32, 121u32, 108u32, 101u32, 110u32, 100u32, 101u32, 114u32],
        Card::Poacher => seq![112u32, 111u32, 97u32, 99u32, 104u32, 101u32, 114u32],
        Card::Remodel => seq![114u32, 101u32, 109u32, 111u32, 100u32, 101u32, 108u32],
        Card::Smithy => seq![115u32, 109u32, 105u32, 116u32, 104u32, 121u32],
        Card::ThroneRoom => seq![116u32, 104u32, 114u32, 111u32, 110u32, 101u32, 114u32, 111u32, 111u32, 109u32],
        Card::Bandit => seq![98u32, 97u32, 110u32, 100u32, 105u32, 116u32],
        Card::CouncilRoom => seq![99u32, 111u32, 117u32, 110u32, 99u32, 105u32, 108u32, 114u32, 111u32, 111u32, 109u32],
        Card::Festival => seq![102u32, 101u32, 115u32, 116u32, 105u32, 118u32, 97u32, 108u32],
        Card::Laboratory => seq![108u32, 97u32, 98u32, 111u32, 114u32, 97u32, 116u32, 111u32, 114u32, 121u32],
        Card::Library => seq![108u32, 105u32, 98u32, 114u32, 97u32, 114u32, 121u32],
        Card::Market => seq![109u32, 97u32, 114u32, 107u32, 101u32, 116u32],
        Card::Mine => seq![109u32, 105u32, 110u32, 101u32],
        Card::Sentry => seq![115u32, 101u32, 110u32, 116u32, 114u32, 121u32],
        Card::Witch => seq![119u32, 105u32, 116u32, 99u32, 104u32],
        Card::Artisan => seq![97u32, 114u32, 116u32, 105u32, 115u32, 97u32, 110u32],
    }
}

/// [`lemma_norm_name`] for some of the cards.
proof fn lemma_norm_name_0(c: Card)
    requires
        c == Card::Copper || c == Card::Silver || c == Card::Gold || c == Card::Estate,
    ensures
        norm(c.name_chars()) == name_codes(c),
{
    reveal_with_fuel(norm, 13);
    assert(norm(c.name_chars()) =~= name_codes(c));
}

/// [`lemma_norm_name`] for some of the cards.
proof fn lemma_norm_name_1(c: Card)
    requires
        c == Card::Duchy || c == Card::Province || c == Card::Curse || c == Card::Cellar,
    ensures
        norm(c.name_chars()) == name_codes(c),
{
    reveal_with_fuel(norm, 13);
    assert(norm(c.name_chars()) =~= name_codes(c));
}

/// [`lemma_norm_name`] for some of the cards.
proof fn lemma_norm_name_2(c: Card)
    requires
        c == Card::Chapel || c == Card::Moat || c == Card::Harbinger || c == Card::Merchant,
    ensures
        norm(c.name_chars()) == name_codes(c),
{
    reveal_with_fuel(norm, 13);
    assert(norm(c.name_chars()) =~= name_codes(c));
}

/// [`lemma_norm_name`] for some of the cards.
proof fn lemma_norm_name_3(c: Card)
    requires
        c == Card::Vassal || c == Card::Village || c == Card::Workshop || c == Card::Bureaucrat,
    ensures
        norm(c.name_chars()) == name_codes(c),
{
    reveal_with_fuel(norm, 13);
    assert(norm(c.name_chars()) =~= name_codes(c));
}

/// [`lemma_norm_name`] for some of the cards.
proof fn lemma_norm_name_4(c: Card)
    requires
        c == Card::Gardens || c == Card::Militia || c == Card::Moneylender || c == Card::Poacher,
    ensures
        norm(c.name_chars()) == name_codes(c),
{
    reveal_with_fuel(norm, 13);
    assert(norm(c.name_chars()) =~= name_codes(c));
}

/// [`lemma_norm_name`] for some of the cards.
proof fn lemma_norm_name_5(c: Card)
    requires
        c == Card::Remodel || c == Card::Smithy || c == Card::ThroneRoom || c == Card::Bandit,
    ensures
        norm(c.name_chars()) == name_codes(c),
{
    reveal_with_fuel(norm, 13);
    assert(norm(c.name_chars()) =~= name_codes(c));
}

/// [`lemma_norm_name`] for some of the cards.
proof fn lemma_norm_name_6(c: Card)
    requires
        c == Card::CouncilRoom || c == Card::Festival || c == Card::Laboratory || c == Card::Library,
    ensures
        norm(c.name_chars()) == name_codes(c),
{
    reveal_with_fuel(norm, 13);
    assert(norm(c.name_chars()) =~= name_codes(c));
}

/// [`lemma_norm_name`] for some of the cards.
proof fn lemma_norm_name_7(c: Card)
    requires
        c == Card::Market || c == Card::Mine || c == Card::Sentry || c == Card::Witch,
    ensures
        norm(c.name_chars()) == name_codes(c),
{
    reveal_with_fuel(norm, 13);
    assert(norm(c.name_chars()) =~= name_codes(c));
}

/// [`lemma_norm_name`] for some of the cards.
proof fn lemma_norm_name_8(c: Card)
    requires
        c == Card::Artisan,
    ensures
        norm(c.name_chars()) == name_codes(c),
{
    reveal_with_fuel(norm, 13);
    assert(norm(c.name_chars()) =~= name_codes(c));
}

/// Reducing a card's name gives its lower-case letters.
pub proof fn lemma_norm_name(c: Card)
    ensures
        norm(c.name_chars()) == name_codes(c),
{
    if c == Card::Copper || c == Card::Silver || c == Card::Gold || c == Card::Estate {
        lemma_norm_name_0(c);
    }
    if c == Card::Duchy || c == Card::Province || c == Card::Curse || c == Card::Cellar {
        lemma_norm_name_1(c);
    }
    if c == Card::Chapel || c == Card::Moat || c == Card::Harbinger || c == Card::Merchant {
        lemma_norm_name_2(c);
    }
    if c == Card::Vassal || c == Card::Village || c == Card::Workshop || c == Card::Bureaucrat {
        lemma_norm_name_3(c);
    }
    if c == Card::Gardens || c == Card::Militia || c == Card::Moneylender || c == Card::Poacher {
        lemma_norm_name_4(c);
    }
    if c == Card::Remodel || c == Card::Smithy || c == Card::ThroneRoom || c == Card::Bandit {
        lemma_norm_name_5(c);
    }
    if c == Card::CouncilRoom || c == Card::Festival || c == Card::Laboratory || c == Card::Library {
        lemma_norm_name_6(c);
    }
    if c == Card::Market || c == Card::Mine || c == Card::Sentry || c == Card::Witch {
        lemma_norm_name_7(c);
    }
    if c == Card::Artisan {
        lemma_norm_name_8(c);
    }
}

/// A card's own name parses back to it: no earlier card's name reduces to
/// the same letters.
pub proof fn lemma_parse_name(c: Card)
    ensures
        spec_parse_card(c.name_chars()) == Some(c),
{
    lemma_norm_name(c);
    assert forall|d: Card| #[trigger] norm(d.name_chars()) == name_codes(d) by {
        lemma_norm_name(d);
    }
    reveal_with_fuel(named_among, 34);
    lemma_idx_roundtrip(c, 0);
}

/// What the text formats rely on in a card name: at least four characters,
/// starting and ending with a letter, no commas, line feeds or carriage
/// returns, and no white space but single inner spaces.
pub open spec fn name_shape(n: Seq<char>) -> bool {
    &&& n.len() >= 4
    &&& crate::text::lacks(n, ',')
    &&& crate::text::lacks(n, '\n')
    &&& crate::text::lacks(n, '\r')
    &&& is_ascii_alnum(n[0])
    &&& is_ascii_alnum(n.last())
}

/// [`lemma_name_shape`] for some of the cards.
proof fn lemma_name_shape_0(c: Card)
    requires
        c == Card::Copper || c == Card::Silver || c == Card::Gold || c == Card::Estate,
    ensures
        name_shape(c.name_chars()),
{
}

/// [`lemma_name_shape`] for some of the cards.
proof fn lemma_name_shape_1(c: Card)
    requires
        c == Card::Duchy || c == Card::Province || c == Card::Curse || c == Card::Cellar,
    ensures
        name_shape(c.name_chars()),
{
}

/// [`lemma_name_shape`] for some of the cards.
proof fn lemma_name_shape_2(c: Card)
    requires
        c == Card::Chapel || c == Card::Moat || c == Card::Harbinger || c == Card::Merchant,
    ensures
        name_shape(c.name_chars()),
{
}

/// [`lemma_name_shape`] for some of the cards.
proof fn lemma_name_shape_3(c: Card)
    requires
        c == Card::Vassal || c == Card::Village || c == Card::Workshop || c == Card::Bureaucrat,
    ensures
        name_shape(c.name_chars()),
{
}

/// [`lemma_name_shape`] for some of the cards.
proof fn lemma_name_shape_4(c: Card)
    requires
        c == Card::Gardens || c == Card::Militia || c == Card::Moneylender || c == Card::Poacher,
    ensures
        name_shape(c.name_chars()),
{
}

/// [`lemma_name_shape`] for some of the cards.
proof fn lemma_name_shape_5(c: Card)
    requires
        c == Card::Remodel || c == Card::Smithy || c == Card::ThroneRoom || c == Card::Bandit,
    ensures
        name_shape(c.name_chars()),
{
}

/// [`lemma_name_shape`] for some of the cards.
proof fn lemma_name_shape_6(c: Card)
    requires
        c == Card::CouncilRoom || c == Card::Festival || c == Card::Laboratory || c == Card::Library,
    ensures
        name_shape(c.name_chars()),
{
}

/// [`lemma_name_shape`] for some of the cards.
proof fn lemma_name_shape_7(c: Card)
    requires
        c == Card::Market || c == Card::Mine || c == Card::Sentry || c == Card::Witch,
    ensures
        name_shape(c.name_chars()),
{
}

/// [`lemma_name_shape`] for some of the cards.
proof fn lemma_name_shape_8(c: Card)
    requires
        c == Card::Artisan,
    ensures
        name_shape(c.name_chars()),
{
}

/// Every card name has the shape the text formats rely on.
pub proof fn lemma_name_shape(c: Card)
    ensures
        name_shape(c.name_chars()),
{
    if c == Card::Copper || c == Card::Silver || c == Card::Gold || c == Card::Estate {
        lemma_name_shape_0(c);
    }
    if c == Card::Duchy || c == Card::Province || c == Card::Curse || c == Card::Cellar {
        lemma_name_shape_1(c);
    }
    if c == Card::Chapel || c == Card::Moat || c == Card::Harbinger || c == Card::Merchant {
        lemma_name_shape_2(c);
    }
    if c == Card::Vassal || c == Card::Village || c == Card::Workshop || c == Card::Bureaucrat {
        lemma_name_shape_3(c);
    }
    if c == Card::Gardens || c == Card::Militia || c == Card::Moneylender || c == Card::Poacher {
        lemma_name_shape_4(c);
    }
    if c == Card::Remodel || c == Card::Smithy || c == Card::ThroneRoom || c == Card::Bandit {
        lemma_name_shape_5(c);
    }
    if c == Card::CouncilRoom || c == Card::Festival || c == Card::Laboratory || c == Card::Library {
        lemma_name_shape_6(c);
    }
    if c == Card::Market || c == Card::Mine || c == Card::Sentry || c == Card::Witch {
        lemma_name_shape_7(c);
    }
    if c == Card::Artisan {
        lemma_name_shape_8(c);
    }
}

/// A text names a card exactly when its letters and digits, ignoring case,
/// spell the card's name: "Throne Room", "throneroom" and "THRONE ROOM" all
/// name Throne Room.
pub proof fn lemma_parse_by_letters(s: Seq<char>, c: Card)
    requires
        norm(s) == name_codes(c),
    ensures
        spec_parse_card(s) == Some(c),
{
    lemma_norm_name(c);
    lemma_parse_name(c);
}

} // verus!
