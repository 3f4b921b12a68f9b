//! Display rendering for cards: the fixed ink symbols, the parenthesised
//! cost (with the non-inkable surcharge), and the stat suffixes.

use vstd::prelude::*;
use vstd::string::StringExecFns;
use crate::cards::{Card, InkType};

verus! {

/// The decimal digit character for `d`.
pub open spec fn digit_char(d: int) -> char {
    if d == 0 {
        '0'
    } else if d == 1 {
        '1'
    } else if d == 2 {
        '2'
    } else if d == 3 {
        '3'
    } else if d == 4 {
        '4'
    } else if d == 5 {
        '5'
    } else if d == 6 {
        '6'
    } else if d == 7 {
        '7'
    } else if d == 8 {
        '8'
    } else {
        '9'
    }
}

/// The decimal rendering of a non-negative number, most significant
/// digit first, with no leading zeroes (a lone zero for zero).
pub open spec fn dec_str(n: int) -> Seq<char>
    decreases n,
{
    if n < 10 {
        seq![digit_char(n)]
    } else {
        dec_str(n / 10).push(digit_char(n % 10))
    }
}

/// The fixed symbol of an ink color.
pub open spec fn ink_symbol_spec(ink: InkType) -> Seq<char> {
    match ink {
        InkType::Amber => "🟡"@,
        InkType::Amethyst => "🟣"@,
        InkType::Emerald => "🟢"@,
        InkType::Ruby => "🔴"@,
        InkType::Sapphire => "🔵"@,
        InkType::Steel => "⚪"@,
    }
}

/// The cost a card shows: its printed cost, plus one if it is not
/// inkable (the non-inkable surcharge, cosmetic only).
pub open spec fn displayed_cost(card: Card) -> int {
    card.cost + if card.inkable {
        0int
    } else {
        1int
    }
}

/// The full rendering of a card: symbol, cost in parentheses,
/// name-version, then strength, willpower and lore with their suffixes.
pub open spec fn card_display_spec(card: Card) -> Seq<char> {
    ink_symbol_spec(card.ink_type) + " ("@ + dec_str(displayed_cost(card)) + ") "@ + card.name@
        + "-"@ + card.version_name@ + " "@ + dec_str(card.strength as int) + "⚔️ | "@ + dec_str(
        card.willpower as int,
    ) + "🛡️ | "@ + dec_str(card.lore_value as int) + "✨"@
}

impl InkType {
    /// The fixed symbol rendering this ink color.
    pub fn symbol(&self) -> (r: String)
        ensures
            r@ == ink_symbol_spec(*self),
    {
        match self {
            InkType::Amber => String::from_str("🟡"),
            InkType::Amethyst => String::from_str("🟣"),
            InkType::Emerald => String::from_str("🟢"),
            InkType::Ruby => String::from_str("🔴"),
            InkType::Sapphire => String::from_str("🔵"),
            InkType::Steel => String::from_str("⚪"),
        }
    }
}

/// The one-character string for a decimal digit.
fn digit_str(d: u16) -> (r: &'static str)
    requires
        d < 10,
    ensures
        r@ == seq![digit_char(d as int)],
{
    let r: &'static str = if d == 0 {
        "0"
    } else if d == 1 {
        "1"
    } else if d == 2 {
        "2"
    } else if d == 3 {
        "3"
    } else if d == 4 {
        "4"
    } else if d == 5 {
        "5"
    } else if d == 6 {
        "6"
    } else if d == 7 {
        "7"
    } else if d == 8 {
        "8"
    } else {
        "9"
    };
    proof {
        reveal_strlit("0");
        reveal_strlit("1");
        reveal_strlit("2");
        reveal_strlit("3");
        reveal_strlit("4");
        reveal_strlit("5");
        reveal_strlit("6");
        reveal_strlit("7");
        reveal_strlit("8");
        reveal_strlit("9");
        assert(r@ =~= seq![digit_char(d as int)]);
    }
    r
}

/// Appends the decimal rendering of `n` to `out`.
fn push_decimal(n: u16, out: &mut String)
    ensures
        final(out)@ == old(out)@ + dec_str(n as int),
    decreases n,
{
    if n < 10 {
        out.append(digit_str(n));
    } else {
        push_decimal(n / 10, out);
        out.append(digit_str(n % 10));
        proof {
            assert(out@ =~= old(out)@ + dec_str(n as int));
        }
    }
}

impl Card {
    /// Renders the card as its display line, for example
    /// `🟡 (1) Kida-Atlantean 2⚔️ | 2🛡️ | 1✨`.
    pub fn display_string(&self) -> (r: String)
        ensures
            r@ == card_display_spec(*self),
    {
        let mut s = self.ink_type.symbol();
        s.append(" (");
        let shown: u16 = self.cost as u16 + if self.inkable {
            0
        } else {
            1
        };
        push_decimal(shown, &mut s);
        s.append(") ");
        s.append(self.name.as_str());
        s.append("-");
        s.append(self.version_name.as_str());
        s.append(" ");
        push_decimal(self.strength as u16, &mut s);
        s.append("⚔️ | ");
        push_decimal(self.willpower as u16, &mut s);
        s.append("🛡️ | ");
        push_decimal(self.lore_value as u16, &mut s);
        s.append("✨");
        proof {
            assert(s@ =~= card_display_spec(*self));
        }
        s
    }
}

} // verus!
