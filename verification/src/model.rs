//! Data model: match rules, inventory items, and their mathematical views.

use vstd::prelude::*;

verus! {

/// A textual match rule, applied to a fetched page body.
#[derive(Debug, Clone, PartialEq)]
pub enum MatchRule {
    /// True iff the pattern matches anywhere in the body.
    Regex(String),
    /// True iff the pattern does not match anywhere in the body.
    NegatedRegex(String),
    /// True iff the body contains the substring.
    Contains(String),
    /// True iff the body does not contain the substring.
    DoesNotContain(String),
}

/// One tracked product page. `in_stock` caches the conjunction of all rules
/// in `matches` as evaluated against the most recently fetched body.
#[derive(Debug, Clone, PartialEq)]
pub struct InventoryItem {
    pub product: String,
    pub vendor: String,
    pub url: String,
    pub in_stock: bool,
    pub matches: Vec<MatchRule>,
}

/// Mathematical view of a match rule: patterns and substrings as character
/// sequences.
pub enum RuleV {
    Regex(Seq<char>),
    NegatedRegex(Seq<char>),
    Contains(Seq<char>),
    DoesNotContain(Seq<char>),
}

/// Mathematical view of an inventory item.
#[verifier::ext_equal]
pub struct ItemV {
    pub product: Seq<char>,
    pub vendor: Seq<char>,
    pub url: Seq<char>,
    pub in_stock: bool,
    pub matches: Seq<RuleV>,
}

/// View of an executable rule.
pub open spec fn rule_v(r: MatchRule) -> RuleV {
    match r {
        MatchRule::Regex(p) => RuleV::Regex(p@),
        MatchRule::NegatedRegex(p) => RuleV::NegatedRegex(p@),
        MatchRule::Contains(s) => RuleV::Contains(s@),
        MatchRule::DoesNotContain(s) => RuleV::DoesNotContain(s@),
    }
}

/// View of an executable rule list.
pub open spec fn rules_v_seq(rs: Seq<MatchRule>) -> Seq<RuleV> {
    rs.map_values(|r: MatchRule| rule_v(r))
}

/// View of an executable item.
pub open spec fn item_v(it: InventoryItem) -> ItemV {
    ItemV {
        product: it.product@,
        vendor: it.vendor@,
        url: it.url@,
        in_stock: it.in_stock,
        matches: rules_v_seq(it.matches@),
    }
}

/// View of an executable collection.
pub open spec fn items_v(items: Seq<InventoryItem>) -> Seq<ItemV> {
    items.map_values(|it: InventoryItem| item_v(it))
}

} // verus!
