//! Affixes, the character being evaluated, and the inputs of one scoring scenario.
use vstd::prelude::*;

use crate::attributes::{Attribute, AttributeVector};

verus! {

/// Largest number of gear slots a build has.
pub const MAX_SLOTS: usize = 14;

/// One selectable gear modifier, identified by its number. The number 0 is
/// the sentinel "none", used to pad a slot that the build leaves empty.
#[derive(Clone, Copy, Debug, PartialEq, Eq, Structural)]
pub struct Affix {
    pub id: u32,
}

impl Affix {
    pub fn none() -> (r: Affix)
        ensures
            r.id == 0,
    {
        Affix { id: 0 }
    }

    pub fn to_number(self) -> (r: u32)
        ensures
            r == self.id,
    {
        self.id
    }
}

/// One source of a conversion rule: `percent` (fixed point) of `source`.
#[derive(Clone, Copy, Debug, PartialEq, Eq, Structural)]
pub struct Share {
    pub source: Attribute,
    pub percent: i64,
}

/// A conversion rule: `target` receives a share of each source in turn.
pub struct Conversion {
    pub target: Attribute,
    pub sources: Vec<Share>,
}

/// The modifier set of one scenario.
pub struct Modifiers {
    /// Conversions read from the base attributes.
    pub convert: Vec<Conversion>,
    /// Flat bonuses added after the conversions.
    pub buff: Vec<(Attribute, i64)>,
    /// Conversions read from the derived attributes; each overwrites its target.
    pub convert_after_buffs: Vec<Conversion>,
    /// Damage multipliers (fixed point) by kind; a kind that is not listed has 1.
    pub damage_multipliers: Vec<(Attribute, i64)>,
}

/// One scoring scenario.
pub struct Combination {
    pub base_attributes: Vec<(Attribute, i64)>,
    /// For each slot, its options in order.
    pub affixes_array: Vec<Vec<Affix>>,
    /// For each slot and option, the deltas that choosing it contributes.
    pub affix_stats_array: Vec<Vec<Vec<(Attribute, i64)>>>,
    pub modifiers: Modifiers,
    pub rankby: Attribute,
    pub max_results: usize,
    pub slots: usize,
}

impl Combination {
    /// The option tables agree slot by slot, and the active slots exist.
    pub open spec fn wf(&self) -> bool {
        &&& self.affixes_array@.len() == self.affix_stats_array@.len()
        &&& forall|i: int|
            0 <= i < self.affixes_array@.len() ==> (#[trigger] self.affixes_array@[i])@.len()
                == self.affix_stats_array@[i]@.len()
        &&& self.slots <= self.affixes_array@.len()
        &&& self.slots <= MAX_SLOTS
    }

    /// The candidate lists of every slot, as sequences.
    pub open spec fn options(&self) -> Seq<Seq<Affix>> {
        self.affixes_array@.map_values(|o: Vec<Affix>| o@)
    }

    pub fn is_valid(&self) -> (r: bool)
        ensures
            r == self.wf(),
    {
        if self.affixes_array.len() != self.affix_stats_array.len() {
            return false;
        }
        if self.slots > self.affixes_array.len() || self.slots > MAX_SLOTS {
            return false;
        }
        let mut i: usize = 0;
        while i < self.affixes_array.len()
            invariant
                i <= self.affixes_array@.len(),
                self.affixes_array@.len() == self.affix_stats_array@.len(),
                forall|j: int|
                    0 <= j < i ==> (#[trigger] self.affixes_array@[j])@.len()
                        == self.affix_stats_array@[j]@.len(),
            decreases self.affixes_array@.len() - i,
        {
            if self.affixes_array[i].len() != self.affix_stats_array[i].len() {
                return false;
            }
            i = i + 1;
        }
        true
    }
}

/// The scratch state of one evaluation: accumulated base attributes, the
/// derived attributes, and the affix chosen for each slot.
pub struct Character {
    pub base_attributes: AttributeVector,
    pub attributes: AttributeVector,
    pub gear: Vec<Affix>,
}

/// A gear array with every slot empty.
pub open spec fn empty_gear() -> Seq<Affix> {
    Seq::new(MAX_SLOTS as nat, |i: int| Affix { id: 0 })
}

impl Character {
    pub open spec fn wf(&self) -> bool {
        &&& self.base_attributes.wf()
        &&& self.attributes.wf()
        &&& self.gear@.len() == MAX_SLOTS
    }

    pub fn new() -> (r: Self)
        ensures
            r.wf(),
            r.base_attributes@ == crate::attributes::zeros(),
            r.attributes@ == crate::attributes::zeros(),
            r.gear@ == empty_gear(),
    {
        let mut gear: Vec<Affix> = Vec::new();
        let mut i: usize = 0;
        while i < MAX_SLOTS
            invariant
                i <= MAX_SLOTS,
                gear@ == Seq::new(i as nat, |j: int| Affix { id: 0 }),
            decreases MAX_SLOTS - i,
        {
            gear.push(Affix::none());
            i = i + 1;
        }
        Character { base_attributes: AttributeVector::new(), attributes: AttributeVector::new(), gear }
    }

    /// Resets both attribute vectors to zero and every slot to none.
    pub fn clear(&mut self)
        requires
            old(self).wf(),
        ensures
            final(self).wf(),
            final(self).base_attributes@ == crate::attributes::zeros(),
            final(self).attributes@ == crate::attributes::zeros(),
            final(self).gear@ == empty_gear(),
    {
        self.base_attributes.clear();
        self.attributes.clear();
        let mut i: usize = 0;
        while i < MAX_SLOTS
            invariant
                i <= MAX_SLOTS,
                self.gear@.len() == MAX_SLOTS,
                self.base_attributes.wf(),
                self.attributes.wf(),
                self.base_attributes@ == crate::attributes::zeros(),
                self.attributes@ == crate::attributes::zeros(),
                forall|j: int| 0 <= j < i ==> self.gear@[j] == (Affix { id: 0 }),
            decreases MAX_SLOTS - i,
        {
            self.gear.set(i, Affix::none());
            i = i + 1;
        }
        assert(self.gear@ == empty_gear());
    }
}

} // verus!
