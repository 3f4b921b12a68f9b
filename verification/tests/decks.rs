use quill::cards::{Card, InkType};
use quill::decks::{
    Deck, DeckFormat, DeckValidationError, StandardDeckFormat, TestingDeckFormat,
};
use quill::test_utils::{
    create_flounder_voice_of_reason_card, create_goons_maleficents_underlings_card,
    create_kida_atlantean_card,
};

fn count_of(breakdown: &[(Card, usize)], card: &Card) -> Option<usize> {
    breakdown
        .iter()
        .find(|entry| entry.0 == *card)
        .map(|entry| entry.1)
}

#[test]
fn test_deck_creation() {
    let deck = Deck::new();
    assert_eq!(deck.card_count(), 0);
}

#[test]
fn test_deck_with_cards() {
    let deck = Deck::with_cards(vec![create_kida_atlantean_card()]);
    assert_eq!(deck.card_count(), 1);
}

#[test]
fn test_deck_inks_monocolor() {
    let deck = Deck::with_cards(vec![create_kida_atlantean_card(); 2]);
    assert_eq!(deck.inks(), vec![InkType::Amber]);
}

#[test]
fn test_deck_inks_with_dual_inks() {
    let deck = Deck::with_cards(vec![
        create_flounder_voice_of_reason_card(),
        create_kida_atlantean_card(),
    ]);
    assert_eq!(deck.inks(), vec![InkType::Amber, InkType::Sapphire]);
}

#[test]
fn test_deck_inks_with_many_cards() {
    let deck = Deck::with_cards(vec![
        create_flounder_voice_of_reason_card(),
        create_kida_atlantean_card(),
        create_flounder_voice_of_reason_card(),
        create_goons_maleficents_underlings_card(),
        create_kida_atlantean_card(),
    ]);
    assert_eq!(
        deck.inks(),
        vec![InkType::Amber, InkType::Sapphire, InkType::Steel]
    );
}

#[test]
fn test_deck_card_breakdown() {
    let deck = Deck::with_cards(vec![
        create_kida_atlantean_card(),
        create_flounder_voice_of_reason_card(),
        create_goons_maleficents_underlings_card(),
        create_kida_atlantean_card(),
    ]);

    let breakdown = deck.card_breakdown();

    assert_eq!(breakdown.len(), 3);
    assert_eq!(count_of(&breakdown, &create_kida_atlantean_card()), Some(2));
    assert_eq!(
        count_of(&breakdown, &create_flounder_voice_of_reason_card()),
        Some(1)
    );
    assert_eq!(
        count_of(&breakdown, &create_goons_maleficents_underlings_card()),
        Some(1)
    );
}

#[test]
fn test_testing_deck_format_with_no_cards() {
    let deck = Deck::new();
    let result = TestingDeckFormat.validate(&deck);
    assert!(result.is_err());
    assert_eq!(
        result.unwrap_err(),
        DeckValidationError::InsufficientCards {
            required: 10,
            actual: 0,
        }
    );
}

#[test]
fn test_testing_deck_format_with_10_cards() {
    let deck = Deck::with_cards(vec![create_kida_atlantean_card(); 10]);
    let result = TestingDeckFormat.validate(&deck);
    assert!(result.is_ok());
}

#[test]
fn test_standard_deck_format_with_no_cards_returns_error() {
    let deck = Deck::new();
    let result = StandardDeckFormat.validate(&deck);
    assert!(result.is_err());
    assert_eq!(
        result.unwrap_err(),
        DeckValidationError::InsufficientCards {
            required: 60,
            actual: 0,
        }
    );
}

#[test]
fn test_standard_deck_format_with_more_than_2_inks_returns_error() {
    let mut cards = vec![create_flounder_voice_of_reason_card(); 58];
    cards.push(create_goons_maleficents_underlings_card());
    cards.push(create_kida_atlantean_card());
    let deck = Deck::with_cards(cards);

    let result = StandardDeckFormat.validate(&deck);

    assert!(result.is_err());
    assert_eq!(
        result.unwrap_err(),
        DeckValidationError::TooManyInks {
            max: 2,
            actual: vec![InkType::Amber, InkType::Sapphire, InkType::Steel],
        }
    );
}

#[test]
fn test_standard_deck_format_with_60_cards_but_more_than_4copies_of_one_card_returns_error() {
    let deck = Deck::with_cards(vec![create_kida_atlantean_card(); 60]);
    let result = StandardDeckFormat.validate(&deck);
    assert!(result.is_err());
    assert_eq!(
        result.unwrap_err(),
        DeckValidationError::TooManyCopies {
            card: create_kida_atlantean_card(),
            count: 60,
        }
    );
}

#[test]
fn test_deck_default_is_empty() {
    let deck = Deck::default();
    assert_eq!(deck.card_count(), 0);
}

#[test]
fn test_deck_inks_empty() {
    let deck = Deck::new();
    assert_eq!(deck.inks(), Vec::<InkType>::new());
}

#[test]
fn test_deck_inks_all_six_in_fixed_order() {
    // inserted in reverse of the fixed order; the view must come back
    // deduplicated and ascending
    let mut steel = create_kida_atlantean_card();
    steel.ink_type = InkType::Steel;
    let mut sapphire = create_kida_atlantean_card();
    sapphire.ink_type = InkType::Sapphire;
    let mut ruby = create_kida_atlantean_card();
    ruby.ink_type = InkType::Ruby;
    let mut emerald = create_kida_atlantean_card();
    emerald.ink_type = InkType::Emerald;
    let mut amethyst = create_kida_atlantean_card();
    amethyst.ink_type = InkType::Amethyst;
    let amber = create_kida_atlantean_card();
    let deck = Deck::with_cards(vec![
        steel.clone(),
        sapphire,
        ruby,
        emerald,
        amethyst,
        amber,
        steel,
    ]);
    assert_eq!(
        deck.inks(),
        vec![
            InkType::Amber,
            InkType::Amethyst,
            InkType::Emerald,
            InkType::Ruby,
            InkType::Sapphire,
            InkType::Steel,
        ]
    );
}

#[test]
fn test_breakdown_counts_sum_to_card_count() {
    let deck = Deck::with_cards(vec![
        create_kida_atlantean_card(),
        create_flounder_voice_of_reason_card(),
        create_kida_atlantean_card(),
        create_goons_maleficents_underlings_card(),
        create_flounder_voice_of_reason_card(),
        create_kida_atlantean_card(),
    ]);
    let breakdown = deck.card_breakdown();
    let total: usize = breakdown.iter().map(|entry| entry.1).sum();
    assert_eq!(total, deck.card_count());
}

#[test]
fn test_breakdown_folds_identities() {
    // same identity, different stats: folded into one entry
    let kida = create_kida_atlantean_card();
    let mut kida_promo = create_kida_atlantean_card();
    kida_promo.strength = 9;
    kida_promo.cost = 5;
    kida_promo.ink_type = InkType::Ruby;
    let deck = Deck::with_cards(vec![kida.clone(), kida_promo, kida.clone()]);
    let breakdown = deck.card_breakdown();
    assert_eq!(breakdown.len(), 1);
    assert_eq!(count_of(&breakdown, &kida), Some(3));
}
