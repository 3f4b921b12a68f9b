use quill::cards::{Card, CardType, Classification, InkType, Rarity};
use quill::test_utils::create_kida_atlantean_card;
use std::collections::HashSet;
use std::collections::hash_map::DefaultHasher;
use std::hash::{Hash, Hasher};

#[test]
fn cards_test_ink_type_display() {
    assert_eq!(InkType::Amber.symbol(), "🟡");
    assert_eq!(InkType::Amethyst.symbol(), "🟣");
    assert_eq!(InkType::Emerald.symbol(), "🟢");
    assert_eq!(InkType::Ruby.symbol(), "🔴");
    assert_eq!(InkType::Sapphire.symbol(), "🔵");
    assert_eq!(InkType::Steel.symbol(), "⚪");
}

#[test]
fn cards_test_card_creation() {
    let card = create_kida_atlantean_card();

    assert_eq!(card.name, "Kida");
    assert_eq!(card.version_name, "Atlantean");
    assert_eq!(card.inkable, true);
    assert_eq!(card.ink_type, InkType::Amber);
    assert_eq!(card.cost, 1);
    assert_eq!(card.card_type, CardType::Character);
    assert_eq!(
        card.classifications,
        vec![
            Classification::Storyborn,
            Classification::Hero,
            Classification::Princess
        ]
    );
    assert_eq!(card.strength, 2);
    assert_eq!(card.willpower, 2);
    assert_eq!(card.lore_value, 1);
    assert_eq!(card.rarity, Rarity::Common);
}

#[test]
fn cards_test_card_display() {
    let card = create_kida_atlantean_card();
    assert_eq!(card.display_string(), "🟡 (1) Kida-Atlantean 2⚔️ | 2🛡️ | 1✨");
}

#[test]
fn test_card_hash_implementation() {
    // Hash is consistent for the same card
    let card1 = create_kida_atlantean_card();
    let card2 = create_kida_atlantean_card();

    let mut hasher1 = DefaultHasher::new();
    let mut hasher2 = DefaultHasher::new();

    card1.hash(&mut hasher1);
    card2.hash(&mut hasher2);

    assert_eq!(
        hasher1.finish(),
        hasher2.finish(),
        "Same cards should have same hash"
    );

    // Hash only depends on name and version_name
    let mut card_with_different_stats = create_kida_atlantean_card();
    card_with_different_stats.strength = 99;
    card_with_different_stats.willpower = 99;
    card_with_different_stats.lore_value = 99;
    card_with_different_stats.cost = 99;
    card_with_different_stats.ink_type = InkType::Ruby;

    let mut hasher3 = DefaultHasher::new();
    card_with_different_stats.hash(&mut hasher3);

    assert_eq!(
        hasher1.finish(),
        hasher3.finish(),
        "Hash should only depend on name and version_name"
    );

    // Different cards have different hashes
    let different_card = Card::new(
        true,
        InkType::Sapphire,
        2,
        CardType::Character,
        "Different Name".to_string(),
        "Different Version".to_string(),
        vec![Classification::Ally],
        3,
        3,
        2,
        Rarity::Uncommon,
    );

    let mut hasher4 = DefaultHasher::new();
    different_card.hash(&mut hasher4);

    assert_ne!(
        hasher1.finish(),
        hasher4.finish(),
        "Different cards should have different hashes"
    );

    // HashSet behavior with the identity-based hash
    let mut card_set = HashSet::new();
    card_set.insert(card1);
    card_set.insert(card2);
    card_set.insert(card_with_different_stats);
    card_set.insert(different_card);

    // Only 2 unique identities among the four inserts
    assert_eq!(
        card_set.len(),
        2,
        "HashSet should deduplicate based on hash implementation"
    );
}

#[test]
fn lib_test_ink_type_display() {
    assert_eq!(InkType::Amber.symbol(), "🟡");
    assert_eq!(InkType::Amethyst.symbol(), "🟣");
    assert_eq!(InkType::Emerald.symbol(), "🟢");
    assert_eq!(InkType::Ruby.symbol(), "🔴");
    assert_eq!(InkType::Sapphire.symbol(), "🔵");
    assert_eq!(InkType::Steel.symbol(), "⚪");
}

#[test]
fn lib_test_card_creation() {
    let card = create_kida_atlantean_card();

    assert_eq!(card.name, "Kida");
    assert_eq!(card.version_name, "Atlantean");
    assert_eq!(card.inkable, true);
    assert_eq!(card.ink_type, InkType::Amber);
    assert_eq!(card.cost, 1);
    assert_eq!(card.card_type, CardType::Character);
    assert_eq!(
        card.classifications,
        vec![
            Classification::Storyborn,
            Classification::Hero,
            Classification::Princess
        ]
    );
    assert_eq!(card.strength, 2);
    assert_eq!(card.willpower, 2);
    assert_eq!(card.lore_value, 1);
    assert_eq!(card.rarity, Rarity::Common);
}

#[test]
fn lib_test_card_display() {
    let card = create_kida_atlantean_card();
    assert_eq!(card.display_string(), "🟡 (1) Kida-Atlantean 2⚔️ | 2🛡️ | 1✨");
}

#[test]
fn test_card_display_non_inkable_surcharge() {
    let mut card = create_kida_atlantean_card();
    card.inkable = false;
    assert_eq!(card.display_string(), "🟡 (2) Kida-Atlantean 2⚔️ | 2🛡️ | 1✨");
}

#[test]
fn test_card_display_two_digit_stats() {
    let card = Card::new(
        true,
        InkType::Sapphire,
        12,
        CardType::Item,
        "Gizmo".to_string(),
        "Prototype".to_string(),
        vec![],
        10,
        0,
        99,
        Rarity::Legendary,
    );
    assert_eq!(card.display_string(), "🔵 (12) Gizmo-Prototype 10⚔️ | 0🛡️ | 99✨");
}

#[test]
fn test_card_equality_is_identity() {
    let card = create_kida_atlantean_card();
    let mut restatted = create_kida_atlantean_card();
    restatted.strength = 7;
    restatted.cost = 9;
    restatted.ink_type = InkType::Steel;
    restatted.rarity = Rarity::Enchanted;
    assert_eq!(card, restatted);

    let mut other_version = create_kida_atlantean_card();
    other_version.version_name = "Protector of Atlantis".to_string();
    assert_ne!(card, other_version);
}
