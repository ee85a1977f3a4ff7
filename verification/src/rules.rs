//! The match-rule evaluator: classifies a page body against a rule, and a
//! whole rule list by conjunction.

use vstd::prelude::*;
use crate::model::{MatchRule, RuleV, ItemV};
use crate::text::str_to_chars;

verus! {

/// Whether a pattern is accepted by the regex engine.
pub uninterp spec fn regex_valid(pattern: Seq<char>) -> bool;

/// Whether a pattern matches anywhere in a body, as decided by the regex
/// engine.
pub uninterp spec fn regex_match(pattern: Seq<char>, body: Seq<char>) -> bool;

/// Relies on `regex::Regex::new`: whether a pattern compiles depends on the
/// pattern alone.
#[verifier::external_body]
pub(crate) fn regex_pattern_ok(pattern: &str) -> (r: bool)
    ensures
        r == regex_valid(pattern@),
{
    regex::Regex::new(pattern).is_ok()
}

/// Relies on `regex::Regex::new` and `regex::Regex::is_match`: whether a
/// pattern compiles depends on the pattern alone, and whether the compiled
/// pattern matches a body depends on the pattern and the body alone.
#[verifier::external_body]
fn regex_find(pattern: &str, body: &str) -> (r: Option<bool>)
    ensures
        r is Some <==> regex_valid(pattern@),
        r is Some ==> r->0 == regex_match(pattern@, body@),
{
    match regex::Regex::new(pattern) {
        Ok(re) => Some(re.is_match(body)),
        Err(_) => None,
    }
}

/// The needle occurs in the haystack starting at position `i`.
pub open spec fn substring_at(body: Seq<char>, needle: Seq<char>, i: int) -> bool {
    0 <= i && i + needle.len() <= body.len() && body.subrange(i, i + needle.len()) == needle
}

/// The needle occurs somewhere in the haystack.
pub open spec fn contains_sub(body: Seq<char>, needle: Seq<char>) -> bool {
    exists|i: int| substring_at(body, needle, i)
}

/// Naive substring search, proved equivalent to `contains_sub`.
pub fn contains_substring(body: &Vec<char>, needle: &Vec<char>) -> (r: bool)
    ensures
        r == contains_sub(body@, needle@),
{
    let n = body.len();
    let m = needle.len();
    if m > n {
        proof {
            assert forall|i: int| !substring_at(body@, needle@, i) by {}
        }
        return false;
    }
    if m == 0 {
        proof {
            assert(body@.subrange(0, 0) =~= needle@);
            assert(substring_at(body@, needle@, 0));
        }
        return true;
    }
    let mut i: usize = 0;
    while i <= n - m
        invariant
            0 < m <= n,
            n == body@.len(),
            m == needle@.len(),
            i <= n - m + 1,
            forall|k: int| 0 <= k < i ==> !substring_at(body@, needle@, k),
        decreases n - m - i + 1,
    {
        let mut j: usize = 0;
        let mut mismatch = false;
        while j < m
            invariant
                0 < m <= n,
                n == body@.len(),
                m == needle@.len(),
                i <= n - m,
                j <= m,
                !mismatch ==> forall|l: int| 0 <= l < j ==> body@[i + l] == needle@[l],
                mismatch ==> !substring_at(body@, needle@, i as int),
            decreases m - j,
        {
            if body[i + j] != needle[j] {
                proof {
                    if substring_at(body@, needle@, i as int) {
                        assert(body@.subrange(i as int, i + m) == needle@);
                        assert(body@.subrange(i as int, i + m)[j as int] == body@[i + j]);
                    }
                }
                mismatch = true;
                j = m;
            } else {
                j = j + 1;
            }
        }
        if !mismatch {
            proof {
                assert(body@.subrange(i as int, i + m) =~= needle@);
                assert(substring_at(body@, needle@, i as int));
            }
            return true;
        }
        i = i + 1;
    }
    proof {
        assert forall|k: int| !substring_at(body@, needle@, k) by {
            if 0 <= k && k + m <= n {
                assert(k < i);
            }
        }
    }
    false
}

/// Whether a single rule holds of a body.
pub open spec fn rule_holds(r: RuleV, body: Seq<char>) -> bool {
    match r {
        RuleV::Regex(p) => regex_match(p, body),
        RuleV::NegatedRegex(p) => !regex_match(p, body),
        RuleV::Contains(s) => contains_sub(body, s),
        RuleV::DoesNotContain(s) => !contains_sub(body, s),
    }
}

/// A rule is well formed when its regex pattern, if it has one, is accepted
/// by the regex engine.
pub open spec fn rule_wf(r: RuleV) -> bool {
    match r {
        RuleV::Regex(p) => regex_valid(p),
        RuleV::NegatedRegex(p) => regex_valid(p),
        RuleV::Contains(_) => true,
        RuleV::DoesNotContain(_) => true,
    }
}

/// All rules of a list are well formed.
pub open spec fn rules_wf(rs: Seq<RuleV>) -> bool {
    forall|i: int| 0 <= i < rs.len() ==> rule_wf(#[trigger] rs[i])
}

/// All items of a collection carry only well-formed rules.
pub open spec fn items_wf(items: Seq<ItemV>) -> bool {
    forall|i: int| 0 <= i < items.len() ==> rules_wf(#[trigger] items[i].matches)
}

/// The conjunction of a rule list over a body, in declared order; an empty
/// list yields true.
pub open spec fn all_hold(rs: Seq<RuleV>, body: Seq<char>) -> bool
    decreases rs.len(),
{
    if rs.len() == 0 {
        true
    } else {
        rule_holds(rs[0], body) && all_hold(rs.drop_first(), body)
    }
}

/// The conjunction of a rule list equals the pointwise evaluation of every
/// rule in it, and the empty list evaluates to true.
pub proof fn lemma_all_hold_pointwise(rs: Seq<RuleV>, body: Seq<char>)
    ensures
        all_hold(rs, body) <==> (forall|i: int| 0 <= i < rs.len() ==> rule_holds(#[trigger] rs[i], body)),
        rs.len() == 0 ==> all_hold(rs, body),
    decreases rs.len(),
{
    if rs.len() > 0 {
        lemma_all_hold_pointwise(rs.drop_first(), body);
        if all_hold(rs, body) {
            assert forall|i: int| 0 <= i < rs.len() implies rule_holds(#[trigger] rs[i], body) by {
                if i > 0 {
                    assert(rs.drop_first()[i - 1] == rs[i]);
                }
            }
        }
        if forall|i: int| 0 <= i < rs.len() ==> rule_holds(#[trigger] rs[i], body) {
            assert forall|i: int| 0 <= i < rs.drop_first().len()
                implies rule_holds(#[trigger] rs.drop_first()[i], body) by {
                assert(rs.drop_first()[i] == rs[i + 1]);
                assert(rule_holds(rs[i + 1], body));
            }
            assert(all_hold(rs.drop_first(), body));
            assert(rule_holds(rs[0], body));
        }
    }
}

/// A regex rule and its negated form are logical complements: for any
/// pattern and body, exactly one of the two holds.
pub proof fn lemma_regex_complement(p: Seq<char>, body: Seq<char>)
    ensures
        rule_holds(RuleV::Regex(p), body) <==> !rule_holds(RuleV::NegatedRegex(p), body),
{
}

/// A containment rule and its negated form are logical complements: for any
/// substring and body, exactly one of the two holds.
pub proof fn lemma_contains_complement(s: Seq<char>, body: Seq<char>)
    ensures
        rule_holds(RuleV::Contains(s), body) <==> !rule_holds(RuleV::DoesNotContain(s), body),
{
}

/// Evaluates one rule against a body. Returns `None` exactly when the rule
/// carries a pattern the regex engine rejects; otherwise returns whether the
/// rule holds.
pub fn evaluate_rule(rule: &MatchRule, body: &str) -> (r: Option<bool>)
    ensures
        r is Some <==> rule_wf(crate::model::rule_v(*rule)),
        r matches Some(b) ==> b == rule_holds(crate::model::rule_v(*rule), body@),
{
    match rule {
        MatchRule::Regex(p) => regex_find(p.as_str(), body),
        MatchRule::NegatedRegex(p) => {
            match regex_find(p.as_str(), body) {
                Some(b) => Some(!b),
                None => None,
            }
        },
        MatchRule::Contains(s) => {
            let b = str_to_chars(body);
            let needle = str_to_chars(s.as_str());
            Some(contains_substring(&b, &needle))
        },
        MatchRule::DoesNotContain(s) => {
            let b = str_to_chars(body);
            let needle = str_to_chars(s.as_str());
            Some(!contains_substring(&b, &needle))
        },
    }
}

/// Evaluates the conjunction of a rule list against a body, in declared
/// order. Returns `None` exactly when some rule carries a rejected pattern;
/// otherwise returns the conjunction, true for an empty list.
pub fn evaluate_all(rules: &Vec<MatchRule>, body: &str) -> (r: Option<bool>)
    ensures
        r is Some <==> rules_wf(crate::model::rules_v_seq(rules@)),
        r matches Some(b) ==> b == all_hold(crate::model::rules_v_seq(rules@), body@),
{
    let ghost rv = crate::model::rules_v_seq(rules@);
    let mut acc = true;
    let mut i: usize = 0;
    proof {
        assert(rv.skip(0) =~= rv);
    }
    while i < rules.len()
        invariant
            i <= rules@.len(),
            rv == crate::model::rules_v_seq(rules@),
            rv.len() == rules@.len(),
            forall|k: int| 0 <= k < i ==> rule_wf(#[trigger] rv[k]),
            all_hold(rv, body@) == (acc && all_hold(rv.skip(i as int), body@)),
        decreases rules@.len() - i,
    {
        let r = evaluate_rule(&rules[i], body);
        match r {
            None => {
                proof {
                    assert(rv[i as int] == crate::model::rule_v(rules@[i as int]));
                    assert(!rule_wf(rv[i as int]));
                }
                return None;
            },
            Some(b) => {
                proof {
                    assert(rv.skip(i as int).len() > 0);
                    assert(rv.skip(i as int)[0] == rv[i as int]);
                    assert(rv.skip(i as int).drop_first() =~= rv.skip(i as int + 1));
                }
                acc = acc && b;
                i = i + 1;
            },
        }
    }
    proof {
        assert(rv.skip(i as int) =~= Seq::<RuleV>::empty());
        assert(all_hold(rv.skip(i as int), body@));
    }
    Some(acc)
}

} // verus!
