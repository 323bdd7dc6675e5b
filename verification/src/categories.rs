//! The category classifier: a rule list mapping a hull or module id to a
//! display category, applied first match wins.

use vstd::prelude::*;

use crate::TypeID;
use crate::fitting::Fitting;

verus! {

/// A display category of the waitlist: a stable identifier plus a
/// human-readable name.
pub struct WaitlistCategory {
    pub id: String,
    pub name: String,
}

/// The immutable category snapshot: the category list and the classifier
/// rules, in priority order.
pub struct CategoryData {
    pub categories: Vec<WaitlistCategory>,
    pub rules: Vec<(TypeID, String)>,
}

/// Whether one classifier rule applies to a loadout: the rule's id is the
/// hull, or one of the fitted modules.
pub open spec fn rule_matches(rule: (TypeID, String), fit: &Fitting) -> bool {
    fit.hull == rule.0 || fit.modules@.dom().contains(rule.0)
}

/// An owned copy of the category list.
pub fn categories(data: &CategoryData) -> (r: Vec<WaitlistCategory>)
    ensures
        r@.len() == data.categories@.len(),
        forall|i: int| 0 <= i < r@.len() ==> ((#[trigger] r@[i]).id@ == data.categories@[i].id@
            && r@[i].name@ == data.categories@[i].name@),
{
    let n = data.categories.len();
    let mut out: Vec<WaitlistCategory> = Vec::new();
    let mut i: usize = 0;
    while i < n
        invariant
            i <= n,
            n == data.categories@.len(),
            out@.len() == i,
            forall|j: int| 0 <= j < i ==> ((#[trigger] out@[j]).id@ == data.categories@[j].id@
                && out@[j].name@ == data.categories@[j].name@),
        decreases n - i,
    {
        let c = &data.categories[i];
        out.push(WaitlistCategory { id: c.id.clone(), name: c.name.clone() });
        i = i + 1;
    }
    out
}

/// An owned copy of the classifier rules, in priority order.
pub fn rules(data: &CategoryData) -> (r: Vec<(TypeID, String)>)
    ensures
        r@.len() == data.rules@.len(),
        forall|i: int| 0 <= i < r@.len() ==> ((#[trigger] r@[i]).0 == data.rules@[i].0
            && r@[i].1@ == data.rules@[i].1@),
{
    let n = data.rules.len();
    let mut out: Vec<(TypeID, String)> = Vec::new();
    let mut i: usize = 0;
    while i < n
        invariant
            i <= n,
            n == data.rules@.len(),
            out@.len() == i,
            forall|j: int| 0 <= j < i ==> ((#[trigger] out@[j]).0 == data.rules@[j].0
                && out@[j].1@ == data.rules@[j].1@),
        decreases n - i,
    {
        let rule = &data.rules[i];
        out.push((rule.0, rule.1.clone()));
        i = i + 1;
    }
    out
}

/// Replaces the active category snapshot whole: a freshly built snapshot
/// swaps in, the previous one is never mutated in place.
pub fn reload_category_data(current: &mut CategoryData, new_data: CategoryData)
    ensures
        *final(current) == new_data,
{
    *current = new_data;
}

/// Classifies a loadout: the category of the first rule whose id matches the
/// hull or a fitted module, none when no rule applies.
pub fn categorize(data: &CategoryData, fit: &Fitting) -> (r: Option<String>)
    ensures
        match r {
            Some(c) => exists|i: int|
                0 <= i < data.rules@.len() && rule_matches(#[trigger] data.rules@[i], fit)
                    && c@ == data.rules@[i].1@ && forall|j: int|
                    0 <= j < i ==> !rule_matches(#[trigger] data.rules@[j], fit),
            None => forall|i: int| 0 <= i < data.rules@.len() ==> !rule_matches(
                #[trigger] data.rules@[i],
                fit,
            ),
        },
{
    let n = data.rules.len();
    let mut i: usize = 0;
    while i < n
        invariant
            i <= n,
            n == data.rules@.len(),
            forall|j: int| 0 <= j < i ==> !rule_matches(#[trigger] data.rules@[j], fit),
        decreases n - i,
    {
        let rule = &data.rules[i];
        let is_match = if fit.hull == rule.0 {
            true
        } else {
            fit.modules.contains_key(rule.0)
        };
        if is_match {
            proof {
                assert(rule_matches(data.rules@[i as int], fit));
            }
            return Some(rule.1.clone());
        }
        i = i + 1;
    }
    None
}

} // verus!
