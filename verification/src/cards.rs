//! The card identity model: a card's attributes, its identity semantics
//! (equality and hashing go by name and version name alone), and its
//! display rendering.

use vstd::prelude::*;

verus! {

/// What kind of card this is.
#[derive(Debug, PartialEq, Eq, Structural, Clone, Copy)]
pub enum CardType {
    Character,
    Item,
    Location,
    Action,
    Song,
}

/// The six ink colors, in their fixed order:
/// Amber < Amethyst < Emerald < Ruby < Sapphire < Steel.
#[derive(Debug, PartialEq, Eq, Structural, Hash, Clone, Copy, PartialOrd, Ord)]
pub enum InkType {
    Amber,
    Amethyst,
    Emerald,
    Ruby,
    Sapphire,
    Steel,
}

/// A narrative tag on a character card; informational only.
#[derive(Debug, PartialEq, Eq, Structural, Clone, Copy)]
pub enum Classification {
    Storyborn,
    Hero,
    Princess,
    Ally,
}

/// Print rarity tier; informational only.
#[derive(Debug, PartialEq, Eq, Structural, Clone, Copy)]
pub enum Rarity {
    Common,
    Uncommon,
    Rare,
    SuperRare,
    Legendary,
    Enchanted,
}

/// The position of an ink color in the fixed order.
pub open spec fn ink_order(ink: InkType) -> int {
    match ink {
        InkType::Amber => 0,
        InkType::Amethyst => 1,
        InkType::Emerald => 2,
        InkType::Ruby => 3,
        InkType::Sapphire => 4,
        InkType::Steel => 5,
    }
}

/// A single card. All fields are taken verbatim by the constructor;
/// only `name` and `version_name` take part in identity (see `PartialEq`).
#[derive(Debug)]
pub struct Card {
    pub inkable: bool,
    pub ink_type: InkType,
    pub cost: u8,
    pub card_type: CardType,
    pub name: String,
    pub version_name: String,
    pub classifications: Vec<Classification>,
    pub strength: u8,
    pub willpower: u8,
    pub lore_value: u8,
    pub rarity: Rarity,
}

/// Field-by-field agreement of two cards, with text and tag lists
/// compared by contents.
#[verifier::opaque]
pub open spec fn same_card(a: Card, b: Card) -> bool {
    &&& a.inkable == b.inkable
    &&& a.ink_type == b.ink_type
    &&& a.cost == b.cost
    &&& a.card_type == b.card_type
    &&& a.name@ == b.name@
    &&& a.version_name@ == b.version_name@
    &&& a.classifications@ == b.classifications@
    &&& a.strength == b.strength
    &&& a.willpower == b.willpower
    &&& a.lore_value == b.lore_value
    &&& a.rarity == b.rarity
}

/// Two cards are the same identity exactly when name and version name match.
pub open spec fn same_identity(a: Card, b: Card) -> bool {
    a.name@ == b.name@ && a.version_name@ == b.version_name@
}

/// Cards that agree on every field are in particular one identity, and
/// agreement is symmetric.
pub proof fn lemma_same_card_identity(a: Card, b: Card)
    requires
        same_card(a, b),
    ensures
        same_identity(a, b),
        same_card(b, a),
{
    reveal(same_card);
}

/// Field-by-field agreement carries over a chain of cards.
pub proof fn lemma_same_card_trans(a: Card, b: Card, c: Card)
    requires
        same_card(a, b),
        same_card(b, c),
    ensures
        same_card(a, c),
{
    reveal(same_card);
}

impl Card {
    /// Builds a card from all eleven attributes, verbatim.
    pub fn new(
        inkable: bool,
        ink_type: InkType,
        cost: u8,
        card_type: CardType,
        name: String,
        version_name: String,
        classifications: Vec<Classification>,
        strength: u8,
        willpower: u8,
        lore_value: u8,
        rarity: Rarity,
    ) -> (card: Card)
        ensures
            card.inkable == inkable,
            card.ink_type == ink_type,
            card.cost == cost,
            card.card_type == card_type,
            card.name == name,
            card.version_name == version_name,
            card.classifications == classifications,
            card.strength == strength,
            card.willpower == willpower,
            card.lore_value == lore_value,
            card.rarity == rarity,
    {
        Card {
            inkable,
            ink_type,
            cost,
            card_type,
            name,
            version_name,
            classifications,
            strength,
            willpower,
            lore_value,
            rarity,
        }
    }
}

impl Clone for Card {
    /// A clone agrees with the original on every field.
    fn clone(&self) -> (res: Self)
        ensures
            same_card(*self, res),
    {
        proof {
            reveal(same_card);
        }
        Card {
            inkable: self.inkable,
            ink_type: self.ink_type,
            cost: self.cost,
            card_type: self.card_type,
            name: self.name.clone(),
            version_name: self.version_name.clone(),
            classifications: self.classifications.clone(),
            strength: self.strength,
            willpower: self.willpower,
            lore_value: self.lore_value,
            rarity: self.rarity,
        }
    }
}

impl PartialEq for Card {
    /// Card equality is identity: name and version name only.
    fn eq(&self, other: &Self) -> (r: bool) {
        self.name == other.name && self.version_name == other.version_name
    }
}

impl vstd::std_specs::cmp::PartialEqSpecImpl for Card {
    open spec fn obeys_eq_spec() -> bool {
        true
    }

    open spec fn eq_spec(&self, other: &Card) -> bool {
        same_identity(*self, *other)
    }
}

impl Eq for Card {}

impl core::hash::Hash for Card {
    /// Relies on the `Hash` impls of `String` references and pairs in std:
    /// the card's hash is that of the pair (name, version_name), so it
    /// depends on no other field.
    #[verifier::external_body]
    fn hash<H: core::hash::Hasher>(&self, state: &mut H) {
        (&self.name, &self.version_name).hash(state)
    }
}

} // verus!
