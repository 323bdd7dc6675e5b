//! Pilot skills and per-ship skill requirement tiers.

use vstd::prelude::*;

use crate::idmap::{AssocVec, count_of};

verus! {

/// The requirement tier asked about: the minimum to fly, the elite
/// standard, or the gold standard.
#[derive(Clone, Copy, PartialEq, Eq, Structural, Debug)]
pub enum SkillTier {
    Min,
    Elite,
    Gold,
}

/// The required level of one skill at each tier, plus its display priority.
pub struct SkillTiers {
    pub min: Option<i64>,
    pub elite: Option<i64>,
    pub gold: Option<i64>,
    pub priority: i8,
}

impl SkillTiers {
    /// The required level at the asked tier.
    pub fn get(&self, tier: SkillTier) -> (r: Option<i64>)
        ensures
            r == match tier {
                SkillTier::Min => self.min,
                SkillTier::Elite => self.elite,
                SkillTier::Gold => self.gold,
            },
    {
        match tier {
            SkillTier::Min => self.min,
            SkillTier::Elite => self.elite,
            SkillTier::Gold => self.gold,
        }
    }

    /// Builds the tier record as the requirement files declare it: a missing
    /// elite level falls back to the minimum, a missing gold level defaults
    /// to five, and a missing priority to one.
    pub fn from_declared(
        min: Option<i64>,
        elite: Option<i64>,
        gold: Option<i64>,
        priority: Option<i8>,
    ) -> (r: SkillTiers)
        ensures
            r.min == min,
            r.elite == (if elite is Some {
                elite
            } else {
                min
            }),
            r.gold == (if gold is Some {
                gold
            } else {
                Some(5i64)
            }),
            r.priority == (if priority is Some {
                priority->0
            } else {
                1i8
            }),
    {
        SkillTiers {
            min,
            elite: match elite {
                Some(l) => Some(l),
                None => min,
            },
            gold: match gold {
                Some(l) => Some(l),
                None => Some(5),
            },
            priority: match priority {
                Some(p) => p,
                None => 1,
            },
        }
    }
}

/// A pilot's trained skills, keyed by skill id.
pub struct Skills {
    pub levels: AssocVec<i64>,
}

impl Skills {
    pub open spec fn wf(&self) -> bool {
        self.levels.wf()
    }

    /// The trained level of a skill, zero when untrained.
    pub fn get(&self, skill_id: i64) -> (r: i64)
        requires
            self.wf(),
        ensures
            r as int == count_of(self.levels@, skill_id),
    {
        self.levels.get_count(skill_id)
    }
}

} // verus!
