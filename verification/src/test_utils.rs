//! Ready-made sample cards, used by the test suite and handy for
//! experimenting with decks.

use vstd::prelude::*;
use vstd::string::StringExecFns;
use crate::cards::{Card, CardType, Classification, InkType, Rarity};

verus! {

/// The sample card "Kida - Atlantean": inkable Amber character,
/// cost 1, 2/2 with 1 lore, common.
pub fn create_kida_atlantean_card() -> (card: Card)
    ensures
        card.inkable == true,
        card.ink_type == InkType::Amber,
        card.cost == 1,
        card.card_type == CardType::Character,
        card.name@ == "Kida"@,
        card.version_name@ == "Atlantean"@,
        card.classifications@ == seq![
            Classification::Storyborn,
            Classification::Hero,
            Classification::Princess,
        ],
        card.strength == 2,
        card.willpower == 2,
        card.lore_value == 1,
        card.rarity == Rarity::Common,
{
    let mut classifications: Vec<Classification> = Vec::new();
    classifications.push(Classification::Storyborn);
    classifications.push(Classification::Hero);
    classifications.push(Classification::Princess);
    proof {
        assert(classifications@ =~= seq![
            Classification::Storyborn,
            Classification::Hero,
            Classification::Princess,
        ]);
    }
    Card::new(
        true,
        InkType::Amber,
        1,
        CardType::Character,
        String::from_str("Kida"),
        String::from_str("Atlantean"),
        classifications,
        2,
        2,
        1,
        Rarity::Common,
    )
}

/// The sample card "Flounder - Voice of Reason": inkable Sapphire
/// character, cost 1, 2/2 with 1 lore, common.
pub fn create_flounder_voice_of_reason_card() -> (card: Card)
    ensures
        card.inkable == true,
        card.ink_type == InkType::Sapphire,
        card.cost == 1,
        card.card_type == CardType::Character,
        card.name@ == "Flounder"@,
        card.version_name@ == "Voice of Reason"@,
        card.classifications@ == seq![Classification::Storyborn, Classification::Ally],
        card.strength == 2,
        card.willpower == 2,
        card.lore_value == 1,
        card.rarity == Rarity::Common,
{
    let mut classifications: Vec<Classification> = Vec::new();
    classifications.push(Classification::Storyborn);
    classifications.push(Classification::Ally);
    proof {
        assert(classifications@ =~= seq![Classification::Storyborn, Classification::Ally]);
    }
    Card::new(
        true,
        InkType::Sapphire,
        1,
        CardType::Character,
        String::from_str("Flounder"),
        String::from_str("Voice of Reason"),
        classifications,
        2,
        2,
        1,
        Rarity::Common,
    )
}

/// The sample card "Goons - Maleficent's Underlings": inkable Steel
/// character, cost 1, 2/2 with 1 lore, common.
pub fn create_goons_maleficents_underlings_card() -> (card: Card)
    ensures
        card.inkable == true,
        card.ink_type == InkType::Steel,
        card.cost == 1,
        card.card_type == CardType::Character,
        card.name@ == "Goons"@,
        card.version_name@ == "Maleficent's Underlings"@,
        card.classifications@ == seq![Classification::Storyborn, Classification::Ally],
        card.strength == 2,
        card.willpower == 2,
        card.lore_value == 1,
        card.rarity == Rarity::Common,
{
    let mut classifications: Vec<Classification> = Vec::new();
    classifications.push(Classification::Storyborn);
    classifications.push(Classification::Ally);
    proof {
        assert(classifications@ =~= seq![Classification::Storyborn, Classification::Ally]);
    }
    Card::new(
        true,
        InkType::Steel,
        1,
        CardType::Character,
        String::from_str("Goons"),
        String::from_str("Maleficent's Underlings"),
        classifications,
        2,
        2,
        1,
        Rarity::Common,
    )
}

} // verus!
