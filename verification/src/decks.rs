//! The deck aggregate and the format-validation engine: a deck is an
//! ordered multiset of cards with derived views (count, distinct inks,
//! per-identity breakdown), and a format checks a deck's legality.

use vstd::prelude::*;
use crate::cards::{
    Card, InkType, ink_order, lemma_same_card_identity, lemma_same_card_trans, same_card,
    same_identity,
};
use itertools::Itertools;

verus! {

/// An ordered sequence of cards; duplicates allowed, order preserves
/// insertion. Immutable after construction.
pub struct Deck {
    cards: Vec<Card>,
}

impl View for Deck {
    type V = Seq<Card>;

    closed spec fn view(&self) -> Seq<Card> {
        self.cards@
    }
}

/// Whether some card of the deck carries the given ink color.
pub open spec fn deck_has_ink(cards: Seq<Card>, ink: InkType) -> bool {
    exists|k: int| 0 <= k < cards.len() && cards[k].ink_type == ink
}

/// The six ink colors in their fixed order.
pub open spec fn all_inks() -> Seq<InkType> {
    seq![
        InkType::Amber,
        InkType::Amethyst,
        InkType::Emerald,
        InkType::Ruby,
        InkType::Sapphire,
        InkType::Steel,
    ]
}

/// The colors of `order` that occur in the deck, kept in the order given.
pub open spec fn inks_in_order(cards: Seq<Card>, order: Seq<InkType>) -> Seq<InkType>
    decreases order.len(),
{
    if order.len() == 0 {
        Seq::empty()
    } else {
        let rest = inks_in_order(cards, order.drop_first());
        if deck_has_ink(cards, order.first()) {
            seq![order.first()] + rest
        } else {
            rest
        }
    }
}

/// The distinct ink colors present in the deck, ascending in the fixed
/// ink order.
pub open spec fn spec_inks(cards: Seq<Card>) -> Seq<InkType> {
    inks_in_order(cards, all_inks())
}

/// How many cards of the deck share the given card's identity.
pub open spec fn count_matching(cards: Seq<Card>, card: Card) -> nat
    decreases cards.len(),
{
    if cards.len() == 0 {
        0
    } else {
        count_matching(cards.drop_last(), card) + if same_identity(cards.last(), card) {
            1nat
        } else {
            0nat
        }
    }
}

impl Deck {
    /// An empty deck.
    pub fn new() -> (deck: Deck)
        ensures
            deck@ == Seq::<Card>::empty(),
    {
        Deck { cards: Vec::new() }
    }

    /// A deck holding exactly the given cards, in the given order.
    pub fn with_cards(cards: Vec<Card>) -> (deck: Deck)
        ensures
            deck@ == cards@,
    {
        Deck { cards }
    }

    /// The total number of card entries; duplicates counted individually.
    pub fn card_count(&self) -> (n: usize)
        ensures
            n == self@.len(),
    {
        self.cards.len()
    }

    /// The distinct ink colors present across all cards, deduplicated and
    /// sorted ascending by the fixed ink order.
    pub fn inks(&self) -> (inks: Vec<InkType>)
        ensures
            inks@ == spec_inks(self@),
    {
        let mut all: Vec<InkType> = Vec::new();
        let mut i: usize = 0;
        while i < self.cards.len()
            invariant
                i <= self.cards.len(),
                all@.len() == i,
                forall|j: int| 0 <= j < i ==> all@[j] == self.cards@[j].ink_type,
            decreases self.cards.len() - i,
        {
            all.push(self.cards[i].ink_type);
            i += 1;
        }
        let ghost a0 = all@;
        proof {
            assert forall|x: InkType| a0.contains(x) implies deck_has_ink(self@, x) by {
                let j = choose|j: int| 0 <= j < a0.len() && a0[j] == x;
                assert(self.cards@[j].ink_type == x);
            }
            assert forall|x: InkType| deck_has_ink(self@, x) implies a0.contains(x) by {
                let k = choose|k: int| 0 <= k < self@.len() && self@[k].ink_type == x;
                assert(a0[k] == x);
            }
        }
        let deduped = dedup_inks(all);
        let ghost d0 = deduped@;
        let result = sort_inks(deduped);
        let ghost r0 = result@;
        proof {
            d0.to_multiset_ensures();
            r0.to_multiset_ensures();
            d0.lemma_multiset_has_no_duplicates();
            assert forall|x: InkType| r0.to_multiset().contains(x) implies r0.to_multiset().count(
                x,
            ) == 1 by {
                assert(r0.to_multiset().count(x) == d0.to_multiset().count(x));
                assert(d0.to_multiset().count(x) > 0);
                assert(d0.contains(x));
            }
            r0.lemma_multiset_has_no_duplicates_conv();
            assert(r0.no_duplicates());
            assert forall|x: InkType| r0.contains(x) implies d0.contains(x) by {
                assert(r0.to_multiset().count(x) > 0);
                assert(d0.to_multiset().count(x) > 0);
            }
            assert forall|x: InkType| d0.contains(x) implies r0.contains(x) by {
                assert(d0.to_multiset().count(x) > 0);
                assert(r0.to_multiset().count(x) > 0);
            }
            assert forall|i2: int, j2: int| 0 <= i2 < j2 < r0.len() implies ink_order(r0[i2])
                < ink_order(r0[j2]) by {
                assert(ink_order(r0[i2]) <= ink_order(r0[j2]));
                assert(r0[i2] != r0[j2]);
                lemma_ink_order_injective(r0[i2], r0[j2]);
            }
            lemma_all_inks_complete();
            lemma_inks_in_order_membership(self@, all_inks());
            lemma_inks_in_order_sorted(self@, all_inks());
            assert(spec_inks(self@) == inks_in_order(self@, all_inks()));
            assert forall|x: InkType| r0.contains(x) implies spec_inks(self@).contains(x) by {
                assert(d0.contains(x));
                assert(a0.contains(x));
                assert(deck_has_ink(self@, x) && all_inks().contains(x));
            }
            assert forall|x: InkType| spec_inks(self@).contains(x) implies r0.contains(x) by {
                assert(all_inks().contains(x) && deck_has_ink(self@, x));
                assert(a0.contains(x));
                assert(d0.contains(x));
            }
            lemma_sorted_matching_unique(r0, spec_inks(self@));
        }
        result
    }
}

/// The total of the per-identity counts of a breakdown.
pub open spec fn total_count(entries: Seq<(Card, usize)>) -> int
    decreases entries.len(),
{
    if entries.len() == 0 {
        0
    } else {
        total_count(entries.drop_last()) + entries.last().1
    }
}

/// Some card of the deck agrees with `c` on every field.
#[verifier::opaque]
pub open spec fn deck_has_instance(cards: Seq<Card>, c: Card) -> bool {
    exists|k: int| 0 <= k < cards.len() && same_card(#[trigger] cards[k], c)
}

/// Some entry of the breakdown carries `c`'s identity.
#[verifier::opaque]
pub open spec fn identity_listed(entries: Seq<(Card, usize)>, c: Card) -> bool {
    exists|i: int| 0 <= i < entries.len() && same_identity(c, #[trigger] entries[i].0)
}

/// What a per-identity breakdown of a deck says: one entry per identity
/// present, each carrying an instance of that identity from the deck and
/// the number of deck cards sharing it.
pub open spec fn breakdown_matches(cards: Seq<Card>, entries: Seq<(Card, usize)>) -> bool {
    &&& forall|i: int, j: int|
        0 <= i < entries.len() && 0 <= j < entries.len() && i != j ==> !same_identity(
            #[trigger] entries[i].0,
            #[trigger] entries[j].0,
        )
    &&& forall|i: int|
        0 <= i < entries.len() ==> deck_has_instance(cards, #[trigger] entries[i].0)
    &&& forall|i: int|
        0 <= i < entries.len() ==> (#[trigger] entries[i].1) as nat == count_matching(
            cards,
            entries[i].0,
        )
    &&& forall|k: int| 0 <= k < cards.len() ==> identity_listed(entries, #[trigger] cards[k])
}

impl Deck {
    /// The per-identity breakdown: one entry per card identity, pairing an
    /// instance of that identity from the deck (which instance is
    /// unspecified) with its occurrence count. The counts add up to
    /// `card_count`.
    pub fn card_breakdown(&self) -> (entries: Vec<(Card, usize)>)
        ensures
            breakdown_matches(self@, entries@),
            total_count(entries@) == self@.len(),
    {
        let mut entries: Vec<(Card, usize)> = Vec::new();
        let mut i: usize = 0;
        while i < self.cards.len()
            invariant
                i <= self.cards.len(),
                breakdown_matches(self@.subrange(0, i as int), entries@),
                total_count(entries@) == i,
            decreases self.cards.len() - i,
        {
            let ghost p = self@.subrange(0, i as int);
            record_card(&mut entries, &self.cards[i], Ghost(p));
            proof {
                assert(self@.subrange(0, i + 1 as int) =~= p.push(self@[i as int]));
            }
            i += 1;
        }
        proof {
            assert(self@.subrange(0, self.cards.len() as int) =~= self@);
        }
        entries
    }
}

/// Folds one more card into a breakdown that accounts for the cards seen
/// so far: its identity's entry is bumped, or a new entry opened.
fn record_card(entries: &mut Vec<(Card, usize)>, card: &Card, Ghost(p): Ghost<Seq<Card>>)
    requires
        breakdown_matches(p, old(entries)@),
        total_count(old(entries)@) == p.len(),
        p.len() < usize::MAX,
    ensures
        breakdown_matches(p.push(*card), final(entries)@),
        total_count(final(entries)@) == p.len() + 1,
{
    match find_entry(entries, card) {
        Some(j) => bump_entry(entries, j, card, Ghost(p)),
        None => append_entry(entries, card, Ghost(p)),
    }
}

/// Raises by one the count of the entry that already carries the card's
/// identity.
fn bump_entry(entries: &mut Vec<(Card, usize)>, j: usize, card: &Card, Ghost(p): Ghost<Seq<Card>>)
    requires
        breakdown_matches(p, old(entries)@),
        total_count(old(entries)@) == p.len(),
        p.len() < usize::MAX,
        j < old(entries)@.len(),
        same_identity(old(entries)@[j as int].0, *card),
    ensures
        breakdown_matches(p.push(*card), final(entries)@),
        total_count(final(entries)@) == p.len() + 1,
{
    let ghost p2 = p.push(*card);
    let ghost e0 = entries@;
    let rep = entries[j].0.clone();
    let cnt = entries[j].1;
    proof {
        lemma_count_matching_le(p, e0[j as int].0);
        lemma_same_card_identity(e0[j as int].0, rep);
    }
    entries.set(j, (rep, cnt + 1));
    proof {
        let e1 = entries@;
        lemma_total_count_update(e0, j as int, e1[j as int]);
        assert forall|m: int| 0 <= m < e1.len() implies (#[trigger] e1[m].1) as nat
            == count_matching(p2, e1[m].0) by {
            lemma_count_matching_push(p, *card, e0[m].0);
            if m == j {
                lemma_count_matching_push(p, *card, rep);
                lemma_count_matching_congruent(p2, rep, e0[j as int].0);
            }
        }
        assert forall|m: int| 0 <= m < e1.len() implies deck_has_instance(
            p2,
            #[trigger] e1[m].0,
        ) by {
            reveal(deck_has_instance);
            if m == j {
                assert(deck_has_instance(p, e0[j as int].0));
                let k = choose|k: int| 0 <= k < p.len() && same_card(#[trigger] p[k], e0[j as int].0);
                lemma_same_card_trans(p[k], e0[j as int].0, rep);
                assert(same_card(p2[k], e1[m].0));
            } else {
                assert(deck_has_instance(p, e0[m].0));
                let k = choose|k: int| 0 <= k < p.len() && same_card(#[trigger] p[k], e0[m].0);
                assert(same_card(p2[k], e1[m].0));
            }
        }
        assert forall|k: int| 0 <= k < p2.len() implies identity_listed(e1, #[trigger] p2[k]) by {
            reveal(identity_listed);
            if k < p.len() {
                assert(identity_listed(e0, p[k]));
                let m = choose|m: int|
                    0 <= m < e0.len() && same_identity(p[k], #[trigger] e0[m].0);
                if m == j {
                    assert(same_identity(p2[k], e1[j as int].0));
                } else {
                    assert(same_identity(p2[k], e1[m].0));
                }
            } else {
                assert(p2[k] == *card);
                assert(same_identity(p2[k], e1[j as int].0));
            }
        }
    }
}

/// Opens a fresh entry for an identity that has no entry yet.
fn append_entry(entries: &mut Vec<(Card, usize)>, card: &Card, Ghost(p): Ghost<Seq<Card>>)
    requires
        breakdown_matches(p, old(entries)@),
        total_count(old(entries)@) == p.len(),
        forall|i: int|
            0 <= i < old(entries)@.len() ==> !same_identity(#[trigger] old(entries)@[i].0, *card),
    ensures
        breakdown_matches(p.push(*card), final(entries)@),
        total_count(final(entries)@) == p.len() + 1,
{
    let ghost p2 = p.push(*card);
    let ghost e0 = entries@;
    let fresh = card.clone();
    proof {
        lemma_same_card_identity(*card, fresh);
    }
    entries.push((fresh, 1));
    proof {
        let e1 = entries@;
        let c = e1.last().0;
        assert(total_count(e1.drop_last()) == p.len()) by {
            assert(e1.drop_last() =~= e0);
        }
        lemma_count_matching_positive(p, *card);
        assert(count_matching(p, *card) == 0) by {
            reveal(identity_listed);
            if count_matching(p, *card) > 0 {
                let k = choose|k: int| 0 <= k < p.len() && same_identity(#[trigger] p[k], *card);
                assert(identity_listed(e0, p[k]));
                let m = choose|m: int|
                    0 <= m < e0.len() && same_identity(p[k], #[trigger] e0[m].0);
                assert(same_identity(e0[m].0, *card));
            }
        }
        assert forall|m: int| 0 <= m < e1.len() implies (#[trigger] e1[m].1) as nat
            == count_matching(p2, e1[m].0) by {
            if m < e0.len() {
                assert(e1[m] == e0[m]);
                lemma_count_matching_push(p, *card, e0[m].0);
            } else {
                lemma_count_matching_push(p, *card, c);
                lemma_count_matching_congruent(p, c, *card);
            }
        }
        assert forall|m: int| 0 <= m < e1.len() implies deck_has_instance(
            p2,
            #[trigger] e1[m].0,
        ) by {
            reveal(deck_has_instance);
            if m < e0.len() {
                assert(e1[m] == e0[m]);
                assert(deck_has_instance(p, e0[m].0));
                let k = choose|k: int| 0 <= k < p.len() && same_card(#[trigger] p[k], e0[m].0);
                assert(same_card(p2[k], e1[m].0));
            } else {
                assert(p2[p.len() as int] == *card);
                assert(same_card(p2[p.len() as int], e1[m].0));
            }
        }
        assert forall|k: int| 0 <= k < p2.len() implies identity_listed(e1, #[trigger] p2[k]) by {
            reveal(identity_listed);
            if k < p.len() {
                assert(identity_listed(e0, p[k]));
                let m = choose|m: int|
                    0 <= m < e0.len() && same_identity(p[k], #[trigger] e0[m].0);
                assert(e1[m] == e0[m]);
                assert(same_identity(p2[k], e1[m].0));
            } else {
                assert(p2[k] == *card);
                assert(same_identity(p2[k], e1[e1.len() - 1].0));
            }
        }
        assert forall|m: int, m2: int|
            0 <= m < e1.len() && 0 <= m2 < e1.len() && m != m2 implies !same_identity(
            #[trigger] e1[m].0,
            #[trigger] e1[m2].0,
        ) by {
            if m < e0.len() && m2 < e0.len() {
                assert(e1[m] == e0[m] && e1[m2] == e0[m2]);
            } else if m < e0.len() {
                assert(e1[m] == e0[m]);
                assert(!same_identity(e0[m].0, *card));
            } else {
                assert(e1[m2] == e0[m2]);
                assert(!same_identity(e0[m2].0, *card));
            }
        }
    }
}

/// A deck-legality policy: a stateless object exposing the single pure
/// operation `validate`. New formats implement this trait; existing
/// policies are never modified for that.
pub trait DeckFormat {
    /// What this format's `validate` promises of its result.
    spec fn validate_post(&self, deck: &Deck, r: Result<(), DeckValidationError>) -> bool;

    /// Checks the deck against this format's rules; returns the first
    /// violated rule, if any.
    fn validate(&self, deck: &Deck) -> (r: Result<(), DeckValidationError>)
        ensures
            self.validate_post(deck, r),
    ;
}

/// A violated deck-legality rule, carrying the data needed to render a
/// diagnostic.
#[derive(Debug, PartialEq)]
pub enum DeckValidationError {
    /// The deck is smaller than the format's minimum.
    InsufficientCards { required: usize, actual: usize },
    /// The deck spans more distinct ink colors than the format allows;
    /// `actual` is the full sorted list of inks present.
    TooManyInks { max: usize, actual: Vec<InkType> },
    /// One card identity appears more often than the per-copy limit.
    TooManyCopies { card: Card, count: usize },
}

/// The testing format: any deck of at least 10 cards is legal.
pub struct TestingDeckFormat;

impl DeckFormat for TestingDeckFormat {
    open spec fn validate_post(&self, deck: &Deck, r: Result<(), DeckValidationError>) -> bool {
        match r {
            Ok(()) => deck@.len() >= 10,
            Err(e) => match e {
                DeckValidationError::InsufficientCards { required, actual } => deck@.len() < 10
                    && required == 10 && actual == deck@.len(),
                _ => false,
            },
        }
    }

    fn validate(&self, deck: &Deck) -> (r: Result<(), DeckValidationError>) {
        let n = deck.card_count();
        if n >= 10 {
            Ok(())
        } else {
            Err(DeckValidationError::InsufficientCards { required: 10, actual: n })
        }
    }
}

/// No identity occurs more than four times among the cards.
pub open spec fn copy_limit_respected(cards: Seq<Card>) -> bool {
    forall|k: int| 0 <= k < cards.len() ==> count_matching(cards, #[trigger] cards[k]) <= 4
}

/// The standard format: at least 60 cards, at most 2 distinct inks, and
/// at most 4 copies of any one card identity, checked in that order with
/// the first violated rule reported.
pub struct StandardDeckFormat;

impl DeckFormat for StandardDeckFormat {
    open spec fn validate_post(&self, deck: &Deck, r: Result<(), DeckValidationError>) -> bool {
        match r {
            Ok(()) => deck@.len() >= 60 && spec_inks(deck@).len() <= 2 && copy_limit_respected(
                deck@,
            ),
            Err(e) => match e {
                DeckValidationError::InsufficientCards { required, actual } => required == 60
                    && actual == deck@.len() && deck@.len() < 60,
                DeckValidationError::TooManyInks { max, actual } => max == 2 && deck@.len() >= 60
                    && spec_inks(deck@).len() > 2 && actual@ == spec_inks(deck@),
                DeckValidationError::TooManyCopies { card, count } => deck@.len() >= 60
                    && spec_inks(deck@).len() <= 2 && deck_has_instance(deck@, card) && count
                    as nat == count_matching(deck@, card) && count > 4,
            },
        }
    }

    fn validate(&self, deck: &Deck) -> (r: Result<(), DeckValidationError>) {
        let n = deck.card_count();
        if n < 60 {
            return Err(DeckValidationError::InsufficientCards { required: 60, actual: n });
        }
        let inks = deck.inks();
        if inks.len() > 2 {
            return Err(DeckValidationError::TooManyInks { max: 2, actual: inks });
        }
        let entries = deck.card_breakdown();
        let mut i: usize = 0;
        while i < entries.len()
            invariant
                i <= entries@.len(),
                breakdown_matches(deck@, entries@),
                forall|m: int| 0 <= m < i ==> (#[trigger] entries@[m].1) <= 4,
                deck@.len() >= 60,
                spec_inks(deck@).len() <= 2,
            decreases entries@.len() - i,
        {
            if entries[i].1 > 4 {
                let offender = entries[i].0.clone();
                let count = entries[i].1;
                proof {
                    lemma_same_card_identity(entries@[i as int].0, offender);
                    assert(deck_has_instance(deck@, offender)) by {
                        reveal(deck_has_instance);
                        assert(deck_has_instance(deck@, entries@[i as int].0));
                        let k = choose|k: int|
                            0 <= k < deck@.len() && same_card(
                                #[trigger] deck@[k],
                                entries@[i as int].0,
                            );
                        lemma_same_card_trans(deck@[k], entries@[i as int].0, offender);
                    }
                    lemma_count_matching_congruent(deck@, offender, entries@[i as int].0);
                }
                return Err(DeckValidationError::TooManyCopies { card: offender, count });
            }
            i += 1;
        }
        proof {
            assert forall|k: int| 0 <= k < deck@.len() implies count_matching(
                deck@,
                #[trigger] deck@[k],
            ) <= 4 by {
                reveal(identity_listed);
                assert(identity_listed(entries@, deck@[k]));
                let m = choose|m: int|
                    0 <= m < entries@.len() && same_identity(deck@[k], #[trigger] entries@[m].0);
                assert(entries@[m].1 <= 4);
                assert(entries@[m].1 as nat == count_matching(deck@, entries@[m].0));
                lemma_count_matching_congruent(deck@, deck@[k], entries@[m].0);
            }
        }
        Ok(())
    }
}

/// Finds the entry whose card shares the probe's identity, if any.
fn find_entry(entries: &Vec<(Card, usize)>, card: &Card) -> (r: Option<usize>)
    ensures
        match r {
            Some(j) => j < entries@.len() && same_identity(entries@[j as int].0, *card),
            None => forall|i: int|
                0 <= i < entries@.len() ==> !same_identity(#[trigger] entries@[i].0, *card),
        },
{
    let mut j: usize = 0;
    while j < entries.len()
        invariant
            j <= entries@.len(),
            forall|i: int| 0 <= i < j ==> !same_identity(#[trigger] entries@[i].0, *card),
        decreases entries@.len() - j,
    {
        if entries[j].0 == *card {
            return Some(j);
        }
        j += 1;
    }
    None
}

/// Appending a card raises the count of its identity by one and leaves
/// every other identity's count unchanged.
proof fn lemma_count_matching_push(cards: Seq<Card>, extra: Card, probe: Card)
    ensures
        count_matching(cards.push(extra), probe) == count_matching(cards, probe) + if same_identity(
            extra,
            probe,
        ) {
            1int
        } else {
            0int
        },
{
    assert(cards.push(extra).drop_last() =~= cards);
    assert(cards.push(extra).last() == extra);
}

/// No identity occurs more often than the deck has cards.
proof fn lemma_count_matching_le(cards: Seq<Card>, probe: Card)
    ensures
        count_matching(cards, probe) <= cards.len(),
    decreases cards.len(),
{
    if cards.len() > 0 {
        lemma_count_matching_le(cards.drop_last(), probe);
    }
}

/// An identity occurs in the count exactly when some card carries it.
proof fn lemma_count_matching_positive(cards: Seq<Card>, probe: Card)
    ensures
        count_matching(cards, probe) > 0 <==> exists|k: int|
            0 <= k < cards.len() && same_identity(#[trigger] cards[k], probe),
    decreases cards.len(),
{
    if cards.len() > 0 {
        lemma_count_matching_positive(cards.drop_last(), probe);
        if count_matching(cards, probe) > 0 {
            if same_identity(cards.last(), probe) {
                assert(same_identity(cards[cards.len() - 1], probe));
            } else {
                let k = choose|k: int|
                    0 <= k < cards.drop_last().len() && same_identity(
                        #[trigger] cards.drop_last()[k],
                        probe,
                    );
                assert(same_identity(cards[k], probe));
            }
        }
        if exists|k: int| 0 <= k < cards.len() && same_identity(#[trigger] cards[k], probe) {
            let k = choose|k: int| 0 <= k < cards.len() && same_identity(#[trigger] cards[k], probe);
            if k < cards.len() - 1 {
                assert(same_identity(cards.drop_last()[k], probe));
            }
        }
    }
}

/// Cards of one identity are counted together, whatever their other fields.
proof fn lemma_count_matching_congruent(cards: Seq<Card>, a: Card, b: Card)
    requires
        same_identity(a, b),
    ensures
        count_matching(cards, a) == count_matching(cards, b),
    decreases cards.len(),
{
    if cards.len() > 0 {
        lemma_count_matching_congruent(cards.drop_last(), a, b);
    }
}

/// Replacing one entry changes the total by the difference of the counts.
proof fn lemma_total_count_update(entries: Seq<(Card, usize)>, j: int, v: (Card, usize))
    requires
        0 <= j < entries.len(),
    ensures
        total_count(entries.update(j, v)) == total_count(entries) - entries[j].1 + v.1,
    decreases entries.len(),
{
    if j == entries.len() - 1 {
        assert(entries.update(j, v).drop_last() =~= entries.drop_last());
        assert(entries.update(j, v).last() == v);
    } else {
        assert(entries.update(j, v).drop_last() =~= entries.drop_last().update(j, v));
        lemma_total_count_update(entries.drop_last(), j, v);
        assert(entries.update(j, v).last() == entries.last());
    }
}

/// Law: card identity ignores every field except name and version name.
/// Two cards that agree on those two fields are one identity, and any
/// deck counts them together, whatever their stats, cost, ink or rarity.
pub proof fn lemma_identity_ignores_other_fields(a: Card, b: Card, cards: Seq<Card>)
    requires
        a.name@ == b.name@,
        a.version_name@ == b.version_name@,
    ensures
        same_identity(a, b),
        count_matching(cards, a) == count_matching(cards, b),
{
    lemma_count_matching_congruent(cards, a, b);
}

impl Default for Deck {
    /// The default deck is the empty deck.
    fn default() -> (deck: Deck)
        ensures
            deck@ == Seq::<Card>::empty(),
    {
        Deck::new()
    }
}

/// Relies on itertools' `unique`: elements already produced once are
/// filtered out (by equality and hash), so every input element appears
/// exactly once in the output.
#[verifier::external_body]
fn dedup_inks(inks: Vec<InkType>) -> (r: Vec<InkType>)
    ensures
        forall|x: InkType| r@.contains(x) <==> inks@.contains(x),
        r@.no_duplicates(),
{
    inks.into_iter().unique().collect()
}

/// Relies on itertools' `sorted`: the elements are returned, none added
/// or dropped, in ascending order of the derived `Ord`, which ranks the
/// ink colors in their declared order.
#[verifier::external_body]
fn sort_inks(inks: Vec<InkType>) -> (r: Vec<InkType>)
    ensures
        r@.to_multiset() == inks@.to_multiset(),
        forall|i: int, j: int| 0 <= i < j < r@.len() ==> ink_order(r@[i]) <= ink_order(r@[j]),
{
    inks.into_iter().sorted().collect()
}

/// Every ink color is listed in `all_inks`, exactly once and in a strictly
/// ascending position.
proof fn lemma_all_inks_complete()
    ensures
        forall|x: InkType| #[trigger] all_inks().contains(x),
        forall|i: int, j: int|
            0 <= i < j < all_inks().len() ==> ink_order(all_inks()[i]) < ink_order(all_inks()[j]),
{
    assert forall|x: InkType| #[trigger] all_inks().contains(x) by {
        let s = all_inks();
        match x {
            InkType::Amber => assert(s[0] == x),
            InkType::Amethyst => assert(s[1] == x),
            InkType::Emerald => assert(s[2] == x),
            InkType::Ruby => assert(s[3] == x),
            InkType::Sapphire => assert(s[4] == x),
            InkType::Steel => assert(s[5] == x),
        }
    }
}

/// The colors kept by `inks_in_order` are exactly those of `order` that
/// the deck carries.
proof fn lemma_inks_in_order_membership(cards: Seq<Card>, order: Seq<InkType>)
    ensures
        forall|x: InkType|
            #[trigger] inks_in_order(cards, order).contains(x) <==> order.contains(x)
                && deck_has_ink(cards, x),
    decreases order.len(),
{
    if order.len() == 0 {
    } else {
        lemma_inks_in_order_membership(cards, order.drop_first());
        let rest = inks_in_order(cards, order.drop_first());
        let whole = inks_in_order(cards, order);
        assert forall|x: InkType| #[trigger] whole.contains(x) implies order.contains(x)
            && deck_has_ink(cards, x) by {
            if deck_has_ink(cards, order.first()) {
                let i = choose|i: int| 0 <= i < whole.len() && whole[i] == x;
                if i == 0 {
                    assert(order[0] == x);
                } else {
                    assert(rest[i - 1] == x);
                    assert(rest.contains(x));
                    let j = choose|j: int| 0 <= j < order.drop_first().len()
                        && order.drop_first()[j] == x;
                    assert(order[j + 1] == x);
                }
            } else {
                let j = choose|j: int| 0 <= j < order.drop_first().len() && order.drop_first()[j]
                    == x;
                assert(order[j + 1] == x);
            }
        }
        assert forall|x: InkType| order.contains(x) && deck_has_ink(cards, x) implies #[trigger]
        whole.contains(x) by {
            let i = choose|i: int| 0 <= i < order.len() && order[i] == x;
            if i == 0 {
                assert(whole[0] == x);
            } else {
                assert(order.drop_first()[i - 1] == x);
                assert(order.drop_first().contains(x));
                assert(rest.contains(x));
                let j = choose|j: int| 0 <= j < rest.len() && rest[j] == x;
                if deck_has_ink(cards, order.first()) {
                    assert(whole[j + 1] == x);
                } else {
                    assert(whole[j] == x);
                }
            }
        }
    }
}

/// If `order` is strictly ascending in the ink order, so is the part of it
/// that `inks_in_order` keeps.
proof fn lemma_inks_in_order_sorted(cards: Seq<Card>, order: Seq<InkType>)
    requires
        forall|i: int, j: int|
            0 <= i < j < order.len() ==> ink_order(order[i]) < ink_order(order[j]),
    ensures
        forall|i: int, j: int|
            0 <= i < j < inks_in_order(cards, order).len() ==> ink_order(
                inks_in_order(cards, order)[i],
            ) < ink_order(inks_in_order(cards, order)[j]),
    decreases order.len(),
{
    if order.len() == 0 {
    } else {
        let tail = order.drop_first();
        assert forall|i: int, j: int| 0 <= i < j < tail.len() implies ink_order(tail[i])
            < ink_order(tail[j]) by {
            assert(tail[i] == order[i + 1]);
            assert(tail[j] == order[j + 1]);
        }
        lemma_inks_in_order_sorted(cards, tail);
        lemma_inks_in_order_membership(cards, tail);
        let rest = inks_in_order(cards, tail);
        let whole = inks_in_order(cards, order);
        assert forall|k: int| 0 <= k < rest.len() implies ink_order(order.first()) < ink_order(
            rest[k],
        ) by {
            assert(rest.contains(rest[k]));
            assert(tail.contains(rest[k]));
            let t = choose|t: int| 0 <= t < tail.len() && tail[t] == rest[k];
            assert(tail[t] == order[t + 1]);
            assert(ink_order(order[0]) < ink_order(order[t + 1]));
        }
        if deck_has_ink(cards, order.first()) {
            assert forall|i: int, j: int| 0 <= i < j < whole.len() implies ink_order(whole[i])
                < ink_order(whole[j]) by {
                if i == 0 {
                    assert(whole[j] == rest[j - 1]);
                } else {
                    assert(whole[i] == rest[i - 1]);
                    assert(whole[j] == rest[j - 1]);
                }
            }
        }
    }
}

/// Two sequences of ink colors that are both strictly ascending in the ink
/// order and contain the same colors are the same sequence.
proof fn lemma_sorted_matching_unique(a: Seq<InkType>, b: Seq<InkType>)
    requires
        forall|i: int, j: int| 0 <= i < j < a.len() ==> ink_order(a[i]) < ink_order(a[j]),
        forall|i: int, j: int| 0 <= i < j < b.len() ==> ink_order(b[i]) < ink_order(b[j]),
        forall|x: InkType| a.contains(x) <==> b.contains(x),
    ensures
        a == b,
    decreases a.len(),
{
    if a.len() == 0 {
        if b.len() > 0 {
            assert(b.contains(b[0]));
            assert(a.contains(b[0]));
        }
        assert(a =~= b);
    } else {
        assert(a.contains(a[0]));
        assert(b.contains(a[0]));
        assert(b.len() > 0);
        let ka = choose|k: int| 0 <= k < b.len() && b[k] == a[0];
        assert(b.contains(b[0]));
        assert(a.contains(b[0]));
        let kb = choose|k: int| 0 <= k < a.len() && a[k] == b[0];
        if ka > 0 {
            assert(ink_order(b[0]) < ink_order(b[ka]));
            assert(ink_order(a[kb]) <= ink_order(a[0]) ==> kb == 0 || ink_order(a[kb]) < ink_order(
                a[0],
            ));
        }
        assert(ink_order(a[0]) <= ink_order(b[0])) by {
            if ka > 0 {
                assert(ink_order(b[0]) < ink_order(b[ka]));
                assert(b[ka] == a[0]);
                if kb > 0 {
                    assert(ink_order(a[0]) < ink_order(a[kb]));
                    assert(a[kb] == b[0]);
                }
            }
        }
        assert(ink_order(b[0]) <= ink_order(a[0])) by {
            if kb > 0 {
                assert(ink_order(a[0]) < ink_order(a[kb]));
                assert(a[kb] == b[0]);
                if ka > 0 {
                    assert(ink_order(b[0]) < ink_order(b[ka]));
                    assert(b[ka] == a[0]);
                }
            }
        }
        assert(a[0] == b[0]) by {
            lemma_ink_order_injective(a[0], b[0]);
        }
        let at = a.drop_first();
        let bt = b.drop_first();
        assert forall|i: int, j: int| 0 <= i < j < at.len() implies ink_order(at[i]) < ink_order(
            at[j],
        ) by {
            assert(at[i] == a[i + 1]);
            assert(at[j] == a[j + 1]);
        }
        assert forall|i: int, j: int| 0 <= i < j < bt.len() implies ink_order(bt[i]) < ink_order(
            bt[j],
        ) by {
            assert(bt[i] == b[i + 1]);
            assert(bt[j] == b[j + 1]);
        }
        assert forall|x: InkType| at.contains(x) implies bt.contains(x) by {
            let i = choose|i: int| 0 <= i < at.len() && at[i] == x;
            assert(a[i + 1] == x);
            assert(a.contains(x));
            assert(b.contains(x));
            let k = choose|k: int| 0 <= k < b.len() && b[k] == x;
            assert(ink_order(a[0]) < ink_order(a[i + 1]));
            if k == 0 {
                lemma_ink_order_injective(a[0], x);
            }
            assert(k > 0);
            assert(bt[k - 1] == x);
        }
        assert forall|x: InkType| bt.contains(x) implies at.contains(x) by {
            let i = choose|i: int| 0 <= i < bt.len() && bt[i] == x;
            assert(b[i + 1] == x);
            assert(b.contains(x));
            assert(a.contains(x));
            let k = choose|k: int| 0 <= k < a.len() && a[k] == x;
            assert(ink_order(b[0]) < ink_order(b[i + 1]));
            if k == 0 {
                lemma_ink_order_injective(b[0], x);
            }
            assert(k > 0);
            assert(at[k - 1] == x);
        }
        lemma_sorted_matching_unique(at, bt);
        assert(a.len() == b.len());
        assert forall|i: int| 0 <= i < a.len() implies a[i] == b[i] by {
            if i > 0 {
                assert(at[i - 1] == bt[i - 1]);
                assert(a[i] == at[i - 1]);
                assert(b[i] == bt[i - 1]);
            }
        }
        assert(a =~= b);
    }
}

/// Distinct ink colors have distinct positions in the fixed order.
proof fn lemma_ink_order_injective(a: InkType, b: InkType)
    ensures
        ink_order(a) == ink_order(b) ==> a == b,
{
}

/// Law: the distinct-ink view of any deck is strictly ascending in the
/// fixed ink order Amber < Amethyst < Emerald < Ruby < Sapphire < Steel,
/// and so holds no duplicates; and it holds exactly the ink colors that
/// the deck's cards carry.
pub proof fn lemma_inks_sorted_no_duplicates(cards: Seq<Card>)
    ensures
        forall|i: int, j: int|
            0 <= i < j < spec_inks(cards).len() ==> ink_order(spec_inks(cards)[i]) < ink_order(
                spec_inks(cards)[j],
            ),
        spec_inks(cards).no_duplicates(),
        forall|x: InkType| #[trigger] spec_inks(cards).contains(x) <==> deck_has_ink(cards, x),
{
    lemma_all_inks_complete();
    lemma_inks_in_order_sorted(cards, all_inks());
    lemma_inks_in_order_membership(cards, all_inks());
    assert forall|i: int, j: int|
        0 <= i < spec_inks(cards).len() && 0 <= j < spec_inks(cards).len() && i
            != j implies spec_inks(cards)[i] != spec_inks(cards)[j] by {
        if i < j {
            assert(ink_order(spec_inks(cards)[i]) < ink_order(spec_inks(cards)[j]));
        } else {
            assert(ink_order(spec_inks(cards)[j]) < ink_order(spec_inks(cards)[i]));
        }
    }
}

} // verus!
