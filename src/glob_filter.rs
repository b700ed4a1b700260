//! The ordered glob filter: a chain of rules, each naming a pattern and a
//! polarity, where the last rule whose pattern matches a path decides.
//!
//! Matching a pattern against a path is done by a regular-expression engine
//! outside this crate; the filter takes its answers as `hits`, where
//! `hits[i]` says whether pattern `i` matches the path.

use vstd::prelude::*;

verus! {

/// One rule of a filter: a pattern (by its index in the filter's pattern
/// list) and the polarity the rule gives a path that the pattern matches.
#[derive(Debug, Clone, Copy, PartialEq, Eq, Structural)]
pub struct FilterItem {
    pub pattern_index: usize,
    pub includes: bool,
}

impl FilterItem {
    /// The rule's verdict on a path: its polarity when its pattern matches,
    /// no verdict otherwise.
    pub fn verdict(&self, hits: &Vec<bool>) -> (r: Option<bool>)
        requires
            self.pattern_index < hits@.len(),
        ensures
            r == if hits@[self.pattern_index as int] {
                Some(self.includes)
            } else {
                None::<bool>
            },
    {
        if hits[self.pattern_index] {
            Some(self.includes)
        } else {
            None
        }
    }
}

/// An ordered chain of rules over a list of patterns.
#[derive(Debug)]
pub struct Filter {
    /// The pattern texts (regular expressions).
    pub patterns: Vec<String>,
    /// The rules in evaluation order.
    pub items: Vec<FilterItem>,
}

/// Every rule names a pattern among `n`.
pub open spec fn rules_fit(items: Seq<FilterItem>, n: nat) -> bool {
    forall|k: int| 0 <= k < items.len() ==> (#[trigger] items[k]).pattern_index < n
}

/// The verdict on a path: rejected at first; then, rule by rule, a rule whose
/// pattern matches sets the verdict to its polarity.
pub open spec fn decision(items: Seq<FilterItem>, hits: Seq<bool>) -> bool
    decreases items.len(),
{
    if items.len() == 0 {
        false
    } else {
        let last = items.last();
        if hits[last.pattern_index as int] {
            last.includes
        } else {
            decision(items.drop_last(), hits)
        }
    }
}

/// Rule `k` matches the path.
pub open spec fn rule_matches(items: Seq<FilterItem>, hits: Seq<bool>, k: int) -> bool {
    hits[items[k].pattern_index as int]
}

/// The verdict of a filter chain is the polarity of the last rule whose
/// pattern matches the path, and exclusion when no rule's pattern matches.
pub proof fn lemma_last_matching_rule_decides(items: Seq<FilterItem>, hits: Seq<bool>)
    requires
        rules_fit(items, hits.len()),
    ensures
        (forall|k: int| 0 <= k < items.len() ==> !rule_matches(items, hits, k)) ==> !decision(items, hits),
        forall|k: int|
            0 <= k < items.len() && rule_matches(items, hits, k) && (forall|j: int|
                k < j < items.len() ==> !rule_matches(items, hits, j)) ==> decision(items, hits)
                == items[k].includes,
    decreases items.len(),
{
    if items.len() > 0 {
        let d = items.drop_last();
        lemma_last_matching_rule_decides(d, hits);
        assert forall|k: int|
            0 <= k < items.len() && rule_matches(items, hits, k) && (forall|j: int|
                k < j < items.len() ==> !rule_matches(items, hits, j)) implies decision(items, hits)
            == items[k].includes by {
            if k < items.len() - 1 {
                assert(!rule_matches(items, hits, items.len() - 1));
                assert(rule_matches(d, hits, k));
                assert forall|j: int| k < j < d.len() implies !rule_matches(d, hits, j) by {
                    assert(!rule_matches(items, hits, j));
                }
            }
        }
        if forall|k: int| 0 <= k < items.len() ==> !rule_matches(items, hits, k) {
            assert forall|k: int| 0 <= k < d.len() implies !rule_matches(d, hits, k) by {
                assert(!rule_matches(items, hits, k));
            }
            assert(!rule_matches(items, hits, items.len() - 1));
        }
    }
}

impl Filter {
    pub open spec fn wf(&self) -> bool {
        rules_fit(self.items@, self.patterns@.len())
    }

    /// Whether a path is admitted, given which of the filter's patterns match it.
    pub fn admits(&self, hits: &Vec<bool>) -> (r: bool)
        requires
            self.wf(),
            hits@.len() == self.patterns@.len(),
        ensures
            r == decision(self.items@, hits@),
    {
        let mut verdict = false;
        let mut k: usize = 0;
        while k < self.items.len()
            invariant
                0 <= k <= self.items@.len(),
                self.wf(),
                hits@.len() == self.patterns@.len(),
                verdict == decision(self.items@.take(k as int), hits@),
            decreases self.items@.len() - k,
        {
            proof {
                assert(self.items@.take(k + 1).drop_last() =~= self.items@.take(k as int));
            }
            match self.items[k].verdict(hits) {
                Some(v) => verdict = v,
                None => {},
            }
            k = k + 1;
        }
        proof {
            assert(self.items@.take(k as int) =~= self.items@);
        }
        verdict
    }
}

} // verus!
