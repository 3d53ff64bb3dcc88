//! The character data of the game as plain values, and how it is shown.

use crate::utf16::{decode_utf16_lossy, trim_nuls, trimmed, utf16_lossy};
use vstd::prelude::*;

verus! {

/// A character's health, focus and stamina.
#[derive(Debug, Clone, Copy)]
pub struct ChrStats {
    pub hp: u32,
    pub max_hp: u32,
    pub base_max_hp: u32,
    pub mp: u32,
    pub max_mp: u32,
    pub base_max_mp: u32,
    pub sp: u32,
    pub max_sp: u32,
    pub base_max_sp: u32,
}

/// A character's attributes and name.
#[derive(Debug, Clone, Copy)]
pub struct ChrAttributes {
    pub vigor: u32,
    pub attunement: u32,
    pub endurance: u32,
    pub strength: u32,
    pub dexterity: u32,
    pub intelligence: u32,
    pub faith: u32,
    pub luck: u32,
    pub unknown_1: u32,
    pub unknown_2: u32,
    pub vitality: u32,
    pub soul_level: u32,
    pub unknown_3: u32,
    pub unknown_4: u32,
    pub unknown_5: u32,
    pub unknown_6: u32,
    pub unknown_7: u32,
    /// The name in UTF-16, filled up with zeros.
    pub name_bytes: [u16; 16],
}

/// The data of a player: the state of the bars, then the attributes.
#[derive(Debug, Clone, Copy)]
pub struct PlayerGameData {
    pub hp: u32,
    pub max_hp: u32,
    pub base_max_hp: u32,
    pub mp: u32,
    pub max_mp: u32,
    pub base_max_mp: u32,
    pub max_sp: u32,
    pub sp: u32,
    pub base_max_sp: u32,
    pub unknown_1: u32,
    pub unknown_2: u32,
    pub attributes: ChrAttributes,
}

impl Default for ChrStats {
    /// The stats with every number 0.
    fn default() -> (r: ChrStats)
        ensures
            r == (ChrStats {
                hp: 0,
                max_hp: 0,
                base_max_hp: 0,
                mp: 0,
                max_mp: 0,
                base_max_mp: 0,
                sp: 0,
                max_sp: 0,
                base_max_sp: 0,
            }),
    {
        ChrStats {
            hp: 0,
            max_hp: 0,
            base_max_hp: 0,
            mp: 0,
            max_mp: 0,
            base_max_mp: 0,
            sp: 0,
            max_sp: 0,
            base_max_sp: 0,
        }
    }
}

impl ChrAttributes {
    /// Whether every number is 0 and the name is filled with zeros.
    pub open spec fn is_blank(self) -> bool {
        &&& self.vigor == 0
        &&& self.attunement == 0
        &&& self.endurance == 0
        &&& self.strength == 0
        &&& self.dexterity == 0
        &&& self.intelligence == 0
        &&& self.faith == 0
        &&& self.luck == 0
        &&& self.unknown_1 == 0
        &&& self.unknown_2 == 0
        &&& self.vitality == 0
        &&& self.soul_level == 0
        &&& self.unknown_3 == 0
        &&& self.unknown_4 == 0
        &&& self.unknown_5 == 0
        &&& self.unknown_6 == 0
        &&& self.unknown_7 == 0
        &&& forall|i: int| 0 <= i < 16 ==> self.name_bytes@[i] == 0
    }
}

impl Default for ChrAttributes {
    /// The attributes with every number 0 and a name of zeros.
    fn default() -> (r: ChrAttributes)
        ensures
            r.is_blank(),
    {
        ChrAttributes {
            vigor: 0,
            attunement: 0,
            endurance: 0,
            strength: 0,
            dexterity: 0,
            intelligence: 0,
            faith: 0,
            luck: 0,
            unknown_1: 0,
            unknown_2: 0,
            vitality: 0,
            soul_level: 0,
            unknown_3: 0,
            unknown_4: 0,
            unknown_5: 0,
            unknown_6: 0,
            unknown_7: 0,
            name_bytes: [0u16, 0, 0, 0, 0, 0, 0, 0, 0, 0, 0, 0, 0, 0, 0, 0],
        }
    }
}

impl Default for PlayerGameData {
    /// The data with every number 0 and the attributes' default.
    fn default() -> (r: PlayerGameData)
        ensures
            r.hp == 0,
            r.max_hp == 0,
            r.base_max_hp == 0,
            r.mp == 0,
            r.max_mp == 0,
            r.base_max_mp == 0,
            r.max_sp == 0,
            r.sp == 0,
            r.base_max_sp == 0,
            r.unknown_1 == 0,
            r.unknown_2 == 0,
            r.attributes.is_blank(),
    {
        PlayerGameData {
            hp: 0,
            max_hp: 0,
            base_max_hp: 0,
            mp: 0,
            max_mp: 0,
            base_max_mp: 0,
            max_sp: 0,
            sp: 0,
            base_max_sp: 0,
            unknown_1: 0,
            unknown_2: 0,
            attributes: ChrAttributes::default(),
        }
    }
}

/// The decimal digits of a number, without leading zeros.
pub open spec fn decimal(n: nat) -> Seq<char>
    decreases n,
{
    if n < 10 {
        seq![(0x30 + n) as char]
    } else {
        decimal(n / 10).push((0x30 + n % 10) as char)
    }
}

/// Writes a number in decimal digits.
pub fn decimal_text(n: u32) -> (text: String)
    ensures
        text@ == decimal(n as nat),
{
    let mut digits: Vec<char> = Vec::new();
    let mut rest: u32 = n;
    while rest >= 10
        invariant
            decimal(n as nat) == decimal(rest as nat) + digits@.reverse(),
        decreases rest,
    {
        let ghost before = digits@;
        let c = ((0x30 + rest % 10) as u8) as char;
        digits.push(c);
        proof {
            assert(digits@.reverse() =~= seq![c] + before.reverse());
            assert(decimal(rest as nat) =~= decimal((rest / 10) as nat) + seq![c]);
            assert(decimal((rest / 10) as nat) + digits@.reverse() =~= decimal(rest as nat)
                + before.reverse());
        }
        rest = rest / 10;
    }
    let mut text = String::new();
    let first = ((0x30 + rest) as u8) as char;
    text.push(first);
    assert(text@ =~= decimal(rest as nat));
    let mut i: usize = digits.len();
    assert(digits@.reverse().take(0) =~= Seq::<char>::empty());
    assert(text@ + Seq::<char>::empty() =~= text@);
    while i > 0
        invariant
            i <= digits@.len(),
            text@ == decimal(rest as nat) + digits@.reverse().take(digits@.len() - i),
        decreases i,
    {
        let ghost before = text@;
        i -= 1;
        text.push(digits[i]);
        assert(text@ =~= decimal(rest as nat) + digits@.reverse().take(digits@.len() - i)) by {
            let r = digits@.reverse();
            assert(r[digits@.len() - i - 1] == digits@[i as int]);
            assert(r.take(digits@.len() - i) =~= r.take(digits@.len() - i - 1).push(
                digits@[i as int],
            ));
        }
    }
    assert(digits@.reverse().take(digits@.len() as int) =~= digits@.reverse());
    text
}

impl ChrAttributes {
    /// The character's name: the name field read as UTF-16, without the
    /// zero characters around it.
    pub fn name_string(&self) -> (s: String)
        ensures
            s@ == trimmed(utf16_lossy(self.name_bytes@)),
    {
        let chars = decode_utf16_lossy(self.name_bytes.as_slice());
        trim_nuls(chars.as_slice())
    }

    /// Vigor in decimal digits.
    pub fn vigor_string(&self) -> (s: String)
        ensures
            s@ == decimal(self.vigor as nat),
    {
        decimal_text(self.vigor)
    }

    /// Attunement in decimal digits.
    pub fn attunement_string(&self) -> (s: String)
        ensures
            s@ == decimal(self.attunement as nat),
    {
        decimal_text(self.attunement)
    }

    /// Endurance in decimal digits.
    pub fn endurance_string(&self) -> (s: String)
        ensures
            s@ == decimal(self.endurance as nat),
    {
        decimal_text(self.endurance)
    }

    /// Strength in decimal digits.
    pub fn strength_string(&self) -> (s: String)
        ensures
            s@ == decimal(self.strength as nat),
    {
        decimal_text(self.strength)
    }

    /// Dexterity in decimal digits.
    pub fn dexterity_string(&self) -> (s: String)
        ensures
            s@ == decimal(self.dexterity as nat),
    {
        decimal_text(self.dexterity)
    }

    /// Intelligence in decimal digits.
    pub fn intelligence_string(&self) -> (s: String)
        ensures
            s@ == decimal(self.intelligence as nat),
    {
        decimal_text(self.intelligence)
    }

    /// Faith in decimal digits.
    pub fn faith_string(&self) -> (s: String)
        ensures
            s@ == decimal(self.faith as nat),
    {
        decimal_text(self.faith)
    }

    /// Luck in decimal digits.
    pub fn luck_string(&self) -> (s: String)
        ensures
            s@ == decimal(self.luck as nat),
    {
        decimal_text(self.luck)
    }

    /// Vitality in decimal digits.
    pub fn vitality_string(&self) -> (s: String)
        ensures
            s@ == decimal(self.vitality as nat),
    {
        decimal_text(self.vitality)
    }

    /// The soul level in decimal digits.
    pub fn soul_level_string(&self) -> (s: String)
        ensures
            s@ == decimal(self.soul_level as nat),
    {
        decimal_text(self.soul_level)
    }
}

} // verus!
