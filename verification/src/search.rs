//! Relations between nodes as search templates use them.

use vstd::prelude::*;
use crate::corpus::Corpus;
use crate::feature::{ev_at, fv_at, tg_at};
use crate::query::{
    regex_is_match, regex_matches, regex_remove_all, regex_removed, EdgeMatchV, RegexPattern, EdgeValueMatcher, FeatureRelationComparison, RelOpV,
    RelationOperator,
};
use crate::strs::{dec_int, str_eq};
use crate::value::{compare_feature_values, compare_values, feature_values_match, values_match, FValue, FeatureValue};

verus! {

/// The first slot of a node: the node itself for a slot.
pub open spec fn fslot(c: Corpus, n: u32) -> Option<u32> {
    if n <= c.max_slot {
        Some(n)
    } else {
        match c.oslots_of(n) {
            Some(s) => if s.len() > 0 { Some(s[0]) } else { None },
            None => None,
        }
    }
}

/// The last slot of a node: the node itself for a slot.
pub open spec fn lslot(c: Corpus, n: u32) -> Option<u32> {
    if n <= c.max_slot {
        Some(n)
    } else {
        match c.oslots_of(n) {
            Some(s) => if s.len() > 0 { Some(s.last()) } else { None },
            None => None,
        }
    }
}

/// The slots of a node: itself for a slot, its stored slots (or none) otherwise.
pub open spec fn nslots(c: Corpus, n: u32) -> Seq<u32> {
    if n <= c.max_slot {
        seq![n]
    } else {
        match c.oslots_of(n) {
            Some(s) => s,
            None => seq![],
        }
    }
}

/// `a` and `b` are at most `d` apart.
pub open spec fn within(a: u32, b: u32, d: u32) -> bool {
    a - b <= d && b - a <= d
}

/// The edge feature `e` has an edge from `s` to `t`.
pub open spec fn edge_has(c: Corpus, e: Seq<char>, s: u32, t: u32) -> bool {
    match c.ef(e) {
        Some(f) => match tg_at(f.values@, s) {
            Some(ts) => ts.contains(t),
            None => false,
        },
        None => false,
    }
}

/// The value of the edge from `s` to `t` in feature `e`.
pub open spec fn edge_val(c: Corpus, e: Seq<char>, s: u32, t: u32) -> Option<FValue> {
    match c.ef(e) {
        Some(f) => ev_at(f.edge_values@, s, t),
        None => None,
    }
}

/// The value of node feature `f` at `n`.
pub open spec fn node_val(c: Corpus, f: Seq<char>, n: u32) -> Option<FValue> {
    match c.nf(f) {
        Some(x) => fv_at(x.values@, n),
        None => None,
    }
}

/// The text of a value as a pattern sees it: a string itself, an integer in decimal.
pub open spec fn value_text(v: FValue) -> Seq<char> {
    match v {
        FValue::Str(s) => s,
        FValue::Int(n) => dec_int(n as int),
    }
}

/// Whether an edge value meets a condition: one of the listed values, none of them, or
/// a match of the pattern in its text.
pub open spec fn edge_value_ok(m: EdgeMatchV, v: FValue) -> bool {
    match m {
        EdgeMatchV::AnyOf(vs) => matches_one(v, vs),
        EdgeMatchV::NoneOf(vs) => !matches_one(v, vs),
        EdgeMatchV::Pattern(p) => regex_matches(p, value_text(v)),
    }
}

/// `v` matches one of `vs`.
pub open spec fn matches_one(v: FValue, vs: Seq<FValue>) -> bool {
    exists|i: int| 0 <= i < vs.len() && #[trigger] values_match(v, vs[i])
}


/// A valued edge from `s` to `t` whose value meets `m`.
pub open spec fn valued_edge(c: Corpus, e: Seq<char>, m: EdgeMatchV, s: u32, t: u32) -> bool {
    edge_has(c, e, s, t) && match edge_val(c, e, s, t) {
        Some(v) => edge_value_ok(m, v),
        None => false,
    }
}

/// Two feature values compared as a feature relation asks.
pub open spec fn compare_ok(k: FeatureRelationComparison, a: FValue, b: FValue) -> bool {
    match k {
        FeatureRelationComparison::Eq => values_match(a, b),
        FeatureRelationComparison::Ne => !values_match(a, b),
        FeatureRelationComparison::Lt => compare_values(a, b) == Some(-1int),
        FeatureRelationComparison::Gt => compare_values(a, b) == Some(1int),
    }
}

/// Whether `l` and `r` stand in the relation `op`.
pub open spec fn rel_spec(c: Corpus, op: RelOpV, l: u32, r: u32) -> bool {
    match op {
        RelOpV::Equal => l == r,
        RelOpV::Before => c.sort_key_spec(l) < c.sort_key_spec(r),
        RelOpV::After => c.sort_key_spec(l) > c.sort_key_spec(r),
        RelOpV::NotEqual => l != r,
        RelOpV::SameSlots => nslots(c, l) == nslots(c, r),
        RelOpV::DifferentSlots => nslots(c, l) != nslots(c, r),
        RelOpV::Overlaps => exists|s: u32| nslots(c, l).contains(s) && #[trigger] nslots(c, r).contains(s),
        RelOpV::Disjoint => !exists|s: u32| nslots(c, l).contains(s) && #[trigger] nslots(c, r).contains(s),
        RelOpV::Embeds => c.contains_spec(l, r),
        RelOpV::EmbeddedIn => c.contains_spec(r, l),
        RelOpV::SlotBefore => lslot(c, l) is Some && fslot(c, r) is Some && lslot(c, l)->0 < fslot(c, r)->0,
        RelOpV::SlotAfter => fslot(c, l) is Some && lslot(c, r) is Some && fslot(c, l)->0 > lslot(c, r)->0,
        RelOpV::AdjacentBefore => lslot(c, l) is Some && fslot(c, r) is Some && lslot(c, l)->0 + 1 == fslot(c, r)->0,
        RelOpV::AdjacentAfter => fslot(c, l) is Some && lslot(c, r) is Some && lslot(c, r)->0 + 1 == fslot(c, l)->0,
        RelOpV::SameFirstSlot => fslot(c, l) is Some && fslot(c, r) is Some && fslot(c, l) == fslot(c, r),
        RelOpV::SameLastSlot => lslot(c, l) is Some && lslot(c, r) is Some && lslot(c, l) == lslot(c, r),
        RelOpV::SameBoundary => fslot(c, l) is Some && fslot(c, r) is Some && lslot(c, l) is Some && lslot(c, r) is Some
            && fslot(c, l) == fslot(c, r) && lslot(c, l) == lslot(c, r),
        RelOpV::NearFirstSlot(d) => fslot(c, l) is Some && fslot(c, r) is Some && within(fslot(c, l)->0, fslot(c, r)->0, d),
        RelOpV::NearLastSlot(d) => lslot(c, l) is Some && lslot(c, r) is Some && within(lslot(c, l)->0, lslot(c, r)->0, d),
        RelOpV::NearBoundary(d) => fslot(c, l) is Some && fslot(c, r) is Some && lslot(c, l) is Some && lslot(c, r) is Some
            && within(fslot(c, l)->0, fslot(c, r)->0, d) && within(lslot(c, l)->0, lslot(c, r)->0, d),
        RelOpV::NearBefore(d) => lslot(c, l) is Some && fslot(c, r) is Some && lslot(c, l)->0 < fslot(c, r)->0
            && fslot(c, r)->0 - lslot(c, l)->0 <= d + 1,
        RelOpV::NearAfter(d) => fslot(c, l) is Some && lslot(c, r) is Some && lslot(c, r)->0 < fslot(c, l)->0
            && fslot(c, l)->0 - lslot(c, r)->0 <= d + 1,
        RelOpV::EdgeForward(e) => edge_has(c, e, l, r),
        RelOpV::EdgeBackward(e) => edge_has(c, e, r, l),
        RelOpV::EdgeEither(e) => c.ef(e) is Some && (edge_has(c, e, l, r) || edge_has(c, e, r, l)),
        RelOpV::EdgeForwardValue(e, m) => valued_edge(c, e, m, l, r),
        RelOpV::EdgeBackwardValue(e, m) => valued_edge(c, e, m, r, l),
        RelOpV::EdgeEitherValue(e, m) => valued_edge(c, e, m, l, r) || valued_edge(c, e, m, r, l),
        RelOpV::FeatureCompare(lf, k, rf) => node_val(c, lf, l) is Some && node_val(c, rf, r) is Some
            && compare_ok(k, node_val(c, lf, l)->0, node_val(c, rf, r)->0),
        RelOpV::FeatureRegexCompare(lf, p, rf) => is_str_val(node_val(c, lf, l)) && is_str_val(node_val(c, rf, r))
            && regex_removed(p, str_of(node_val(c, lf, l))) == regex_removed(p, str_of(node_val(c, rf, r))),
    }
}

/// A string value.
pub open spec fn is_str_val(v: Option<FValue>) -> bool {
    match v {
        Some(FValue::Str(_)) => true,
        _ => false,
    }
}

/// The text of a string value (empty for another).
pub open spec fn str_of(v: Option<FValue>) -> Seq<char> {
    match v {
        Some(FValue::Str(s)) => s,
        _ => seq![],
    }
}


/// The relations of search templates, evaluated on a corpus.
pub struct Search<'a> {
    pub corpus: &'a Corpus,
}

/// The legend of the relation operators.
pub fn relations_legend() -> (r: &'static str)
    ensures
        r@ == legend_text()@,
{
    legend_text()
}

#[verifier::allow_in_spec]
pub fn legend_text() -> &'static str
    returns
        "Supported relations:\n                      = same node\n                      # different node\n                      < canonical order before\n                      > canonical order after\n                     <: immediately before\n                     :> immediately after\n                     == same slot set\n                     ## different slot set\n                     && overlapping slot sets\n                     || disjoint slot sets\n                     << slot set before\n                     >> slot set after\n                     =: same first slot\n                     := same last slot\n                     :: same first and last slots\n                    [[ embeds\n                    ]] embedded in\n                  =k: first slots within k slots\n                  :k= last slots within k slots\n                  :k: boundaries within k slots\n                  <k: before within k slots\n                  :k> after within k slots\n       .feature=feature. feature equality\n       .feature#feature. feature inequality\n       .feature<feature. feature less-than\n       .feature>feature. feature greater-than\n       .feature~regex~feature. regex-normalized feature comparison\n              -edge> forward edge\n              <edge- backward edge\n              <edge> bidirectional edge\n        -edge=value> forward valued edge\n        <edge=value- backward valued edge\n        <edge=value> bidirectional valued edge\nThe warp feature \"oslots\" cannot be used as a normal edge search relation.",
{
    "Supported relations:\n                      = same node\n                      # different node\n                      < canonical order before\n                      > canonical order after\n                     <: immediately before\n                     :> immediately after\n                     == same slot set\n                     ## different slot set\n                     && overlapping slot sets\n                     || disjoint slot sets\n                     << slot set before\n                     >> slot set after\n                     =: same first slot\n                     := same last slot\n                     :: same first and last slots\n                    [[ embeds\n                    ]] embedded in\n                  =k: first slots within k slots\n                  :k= last slots within k slots\n                  :k: boundaries within k slots\n                  <k: before within k slots\n                  :k> after within k slots\n       .feature=feature. feature equality\n       .feature#feature. feature inequality\n       .feature<feature. feature less-than\n       .feature>feature. feature greater-than\n       .feature~regex~feature. regex-normalized feature comparison\n              -edge> forward edge\n              <edge- backward edge\n              <edge> bidirectional edge\n        -edge=value> forward valued edge\n        <edge=value- backward valued edge\n        <edge=value> bidirectional valued edge\nThe warp feature \"oslots\" cannot be used as a normal edge search relation."
}

pub(crate) fn seq_has(s: &[u32], x: u32) -> (r: bool)
    ensures
        r == s@.contains(x),
{
    let mut i: usize = 0;
    while i < s.len()
        invariant
            0 <= i <= s@.len(),
            forall|j: int| 0 <= j < i ==> s@[j] != x,
        decreases s@.len() - i,
    {
        if s[i] == x {
            assert(s@[i as int] == x);
            return true;
        }
        i += 1;
    }
    false
}

impl<'a> Search<'a> {
    pub fn new(corpus: &'a Corpus) -> (r: Self)
        ensures
            *r.corpus == *corpus,
    {
        Search { corpus }
    }

    pub fn relations_legend(&self) -> (r: &'static str)
        ensures
            r@ == legend_text()@,
    {
        legend_text()
    }

    #[allow(non_snake_case)]
    pub fn relationsLegend(&self) -> (r: &'static str)
        ensures
            r@ == legend_text()@,
    {
        legend_text()
    }

    pub fn first_slot(&self, node: u32) -> (r: Option<u32>)
        ensures
            r == fslot(*self.corpus, node),
    {
        if node <= self.corpus.max_slot {
            Some(node)
        } else {
            match self.corpus.slots_of(node) {
                Some(s) => if s.len() > 0 { Some(s[0]) } else { None },
                None => None,
            }
        }
    }

    pub fn last_slot(&self, node: u32) -> (r: Option<u32>)
        ensures
            r == lslot(*self.corpus, node),
    {
        if node <= self.corpus.max_slot {
            Some(node)
        } else {
            match self.corpus.slots_of(node) {
                Some(s) => if s.len() > 0 { Some(s[s.len() - 1]) } else { None },
                None => None,
            }
        }
    }

    pub fn node_slots(&self, node: u32) -> (r: Vec<u32>)
        ensures
            r@ == nslots(*self.corpus, node),
    {
        if node <= self.corpus.max_slot {
            let mut v: Vec<u32> = Vec::new();
            v.push(node);
            proof {
                assert(v@ =~= seq![node]);
            }
            v
        } else {
            match self.corpus.slots_of(node) {
                Some(s) => crate::sorting::copy_nodes(s),
                None => Vec::new(),
            }
        }
    }

    pub fn slots_equal(&self, left: u32, right: u32) -> (r: bool)
        ensures
            r == (nslots(*self.corpus, left) == nslots(*self.corpus, right)),
    {
        let a = self.node_slots(left);
        let b = self.node_slots(right);
        if a.len() != b.len() {
            return false;
        }
        let mut i: usize = 0;
        while i < a.len()
            invariant
                0 <= i <= a.len(),
                a.len() == b.len(),
                a@ == nslots(*self.corpus, left),
                b@ == nslots(*self.corpus, right),
                forall|j: int| 0 <= j < i ==> a@[j] == b@[j],
            decreases a.len() - i,
        {
            if a[i] != b[i] {
                assert(a@[i as int] != b@[i as int]);
                return false;
            }
            i += 1;
        }
        proof {
            assert(a@ =~= b@);
        }
        true
    }

    /// Whether the slots of the two nodes have one in common.
    pub fn slots_overlap(&self, left: u32, right: u32) -> (r: bool)
        ensures
            r == exists|s: u32| nslots(*self.corpus, left).contains(s) && #[trigger] nslots(*self.corpus, right).contains(s),
    {
        let a = self.node_slots(left);
        let b = self.node_slots(right);
        let mut i: usize = 0;
        while i < a.len()
            invariant
                0 <= i <= a.len(),
                a@ == nslots(*self.corpus, left),
                b@ == nslots(*self.corpus, right),
                forall|j: int| 0 <= j < i ==> !b@.contains(#[trigger] a@[j]),
            decreases a.len() - i,
        {
            if seq_has(b.as_slice(), a[i]) {
                proof {
                    assert(a@.contains(a@[i as int]));
                    assert(b@.contains(a@[i as int]));
                    assert(nslots(*self.corpus, right).contains(a@[i as int]));
                }
                return true;
            }
            i += 1;
        }
        proof {
            if exists|s: u32| a@.contains(s) && #[trigger] b@.contains(s) {
                let s = choose|s: u32| a@.contains(s) && #[trigger] b@.contains(s);
                let j = choose|j: int| 0 <= j < a@.len() && a@[j] == s;
                assert(!b@.contains(a@[j]));
            }
        }
        false
    }

    fn edge_has_exec(&self, name: &str, source: u32, target: u32) -> (r: bool)
        ensures
            r == edge_has(*self.corpus, name@, source, target),
    {
        match self.corpus.edge_feature(name) {
            Some(f) => match f.targets(source) {
                Some(ts) => seq_has(ts, target),
                None => false,
            },
            None => false,
        }
    }

    /// Whether there is an edge from `source` to `target` whose value meets the
    /// condition.
    fn valued_edge_exec(&self, name: &str, m: &EdgeValueMatcher, source: u32, target: u32) -> (r: bool)
        ensures
            r == valued_edge(*self.corpus, name@, m.view_matcher(), source, target),
    {
        if !self.edge_has_exec(name, source, target) {
            return false;
        }
        let f = match self.corpus.edge_feature(name) {
            Some(f) => f,
            None => {
                return false;
            },
        };
        match f.edge_value(source, target) {
            Some(v) => edge_value_matches(v, m),
            None => false,
        }
    }

    /// Whether two nodes stand in a relation.
    pub fn relation_operator_holds(&self, operator: &RelationOperator, left: u32, right: u32) -> (r: bool)
        ensures
            r == rel_spec(*self.corpus, operator.view_op(), left, right),
    {
        let c = self.corpus;
        match operator {
            RelationOperator::Equal => left == right,
            RelationOperator::Before => c.sort_key(left) < c.sort_key(right),
            RelationOperator::After => c.sort_key(left) > c.sort_key(right),
            RelationOperator::NotEqual => left != right,
            RelationOperator::SameSlots => self.slots_equal(left, right),
            RelationOperator::DifferentSlots => !self.slots_equal(left, right),
            RelationOperator::Overlaps => self.slots_overlap(left, right),
            RelationOperator::Disjoint => !self.slots_overlap(left, right),
            RelationOperator::Embeds => c.contains(left, right),
            RelationOperator::EmbeddedIn => c.contains(right, left),
            RelationOperator::SlotBefore => match (self.last_slot(left), self.first_slot(right)) {
                (Some(a), Some(b)) => a < b,
                _ => false,
            },
            RelationOperator::SlotAfter => match (self.first_slot(left), self.last_slot(right)) {
                (Some(a), Some(b)) => a > b,
                _ => false,
            },
            RelationOperator::AdjacentBefore => match (self.last_slot(left), self.first_slot(right)) {
                (Some(a), Some(b)) => a.checked_add(1) == Some(b),
                _ => false,
            },
            RelationOperator::AdjacentAfter => match (self.first_slot(left), self.last_slot(right)) {
                (Some(a), Some(b)) => b.checked_add(1) == Some(a),
                _ => false,
            },
            RelationOperator::SameFirstSlot => match (self.first_slot(left), self.first_slot(right)) {
                (Some(a), Some(b)) => a == b,
                _ => false,
            },
            RelationOperator::SameLastSlot => match (self.last_slot(left), self.last_slot(right)) {
                (Some(a), Some(b)) => a == b,
                _ => false,
            },
            RelationOperator::SameBoundary => match (
                self.first_slot(left),
                self.first_slot(right),
                self.last_slot(left),
                self.last_slot(right),
            ) {
                (Some(a), Some(b), Some(x), Some(y)) => a == b && x == y,
                _ => false,
            },
            RelationOperator::NearFirstSlot(d) => match (self.first_slot(left), self.first_slot(right)) {
                (Some(a), Some(b)) => slots_within(a, b, *d),
                _ => false,
            },
            RelationOperator::NearLastSlot(d) => match (self.last_slot(left), self.last_slot(right)) {
                (Some(a), Some(b)) => slots_within(a, b, *d),
                _ => false,
            },
            RelationOperator::NearBoundary(d) => match (
                self.first_slot(left),
                self.first_slot(right),
                self.last_slot(left),
                self.last_slot(right),
            ) {
                (Some(a), Some(b), Some(x), Some(y)) => slots_within(a, b, *d) && slots_within(x, y, *d),
                _ => false,
            },
            RelationOperator::NearBefore(d) => match (self.last_slot(left), self.first_slot(right)) {
                (Some(a), Some(b)) => a < b && b.saturating_sub(a) <= d.saturating_add(1),
                _ => false,
            },
            RelationOperator::NearAfter(d) => match (self.first_slot(left), self.last_slot(right)) {
                (Some(a), Some(b)) => b < a && a.saturating_sub(b) <= d.saturating_add(1),
                _ => false,
            },
            RelationOperator::EdgeForward(e) => self.edge_has_exec(e.as_str(), left, right),
            RelationOperator::EdgeBackward(e) => self.edge_has_exec(e.as_str(), right, left),
            RelationOperator::EdgeEither(e) => c.edge_feature(e.as_str()).is_some() && (self.edge_has_exec(e.as_str(), left, right)
                || self.edge_has_exec(e.as_str(), right, left)),
            RelationOperator::EdgeForwardValue(e, m) => self.valued_edge_exec(e.as_str(), m, left, right),
            RelationOperator::EdgeBackwardValue(e, m) => self.valued_edge_exec(e.as_str(), m, right, left),
            RelationOperator::EdgeEitherValue(e, m) => self.valued_edge_exec(e.as_str(), m, left, right)
                || self.valued_edge_exec(e.as_str(), m, right, left),
            RelationOperator::FeatureCompare { left_feature, comparison, right_feature } => self.feature_relation_holds(
                left,
                right,
                left_feature.as_str(),
                *comparison,
                right_feature.as_str(),
            ),
            RelationOperator::FeatureRegexCompare { left_feature, pattern, right_feature } => self.feature_regex_relation_holds(
                left,
                right,
                left_feature.as_str(),
                pattern,
                right_feature.as_str(),
            ),
        }
    }

    fn value_at(&self, feature: &str, node: u32) -> (r: Option<&FeatureValue>)
        ensures
            match r {
                Some(v) => node_val(*self.corpus, feature@, node) == Some(v@),
                None => node_val(*self.corpus, feature@, node) is None,
            },
    {
        match self.corpus.node_feature(feature) {
            Some(f) => f.value(node),
            None => None,
        }
    }

    /// Whether the values of two features at two nodes compare as asked.
    pub fn feature_relation_holds(
        &self,
        left: u32,
        right: u32,
        left_feature: &str,
        comparison: FeatureRelationComparison,
        right_feature: &str,
    ) -> (r: bool)
        ensures
            r == (node_val(*self.corpus, left_feature@, left) is Some && node_val(*self.corpus, right_feature@, right) is Some
                && compare_ok(comparison, node_val(*self.corpus, left_feature@, left)->0, node_val(*self.corpus, right_feature@, right)->0)),
    {
        let a = match self.value_at(left_feature, left) {
            Some(v) => v,
            None => {
                return false;
            },
        };
        let b = match self.value_at(right_feature, right) {
            Some(v) => v,
            None => {
                return false;
            },
        };
        match comparison {
            FeatureRelationComparison::Eq => feature_values_match(a, b),
            FeatureRelationComparison::Ne => !feature_values_match(a, b),
            FeatureRelationComparison::Lt => compare_feature_values(a, b) == Some(-1i8),
            FeatureRelationComparison::Gt => compare_feature_values(a, b) == Some(1i8),
        }
    }

    /// Whether two string values are equal once the matches of the pattern are
    /// removed from both; false unless both values are strings.
    pub fn feature_regex_relation_holds(
        &self,
        left: u32,
        right: u32,
        left_feature: &str,
        pattern: &RegexPattern,
        right_feature: &str,
    ) -> (r: bool)
        ensures
            r == (is_str_val(node_val(*self.corpus, left_feature@, left)) && is_str_val(node_val(*self.corpus, right_feature@, right))
                && regex_removed(pattern@, str_of(node_val(*self.corpus, left_feature@, left)))
                    == regex_removed(pattern@, str_of(node_val(*self.corpus, right_feature@, right)))),
    {
        let a = match self.value_at(left_feature, left) {
            Some(FeatureValue::Str(s)) => s,
            _ => {
                return false;
            },
        };
        let b = match self.value_at(right_feature, right) {
            Some(FeatureValue::Str(s)) => s,
            _ => {
                return false;
            },
        };
        let x = regex_remove_all(pattern, a.as_str());
        let y = regex_remove_all(pattern, b.as_str());
        str_eq(x.as_str(), y.as_str())
    }
}

/// Whether two slots are at most `distance` apart.
pub fn slots_within(left: u32, right: u32, distance: u32) -> (r: bool)
    ensures
        r == within(left, right, distance),
{
    if left >= right {
        left - right <= distance
    } else {
        right - left <= distance
    }
}

/// Whether an edge value meets a condition: one of the listed values, none
/// of them, or a match of the pattern in its text.
pub fn edge_value_matches(actual: &FeatureValue, matcher: &EdgeValueMatcher) -> (r: bool)
    ensures
        r == edge_value_ok(matcher.view_matcher(), actual@),
{
    match matcher {
        EdgeValueMatcher::Eq(vs) => {
            let mut i: usize = 0;
            while i < vs.len()
                invariant
                    0 <= i <= vs@.len(),
                    matcher.view_matcher() == EdgeMatchV::AnyOf(crate::query::fvalues(vs@)),
                    forall|j: int| 0 <= j < i ==> !values_match(actual@, #[trigger] crate::query::fvalues(vs@)[j]),
                decreases vs@.len() - i,
            {
                if feature_values_match(actual, &vs[i]) {
                    assert(values_match(actual@, crate::query::fvalues(vs@)[i as int]));
                    let ghost fv = crate::query::fvalues(vs@);
                    assert(0 <= i < fv.len() && values_match(actual@, fv[i as int]));
                    assert(matches_one(actual@, fv));
                    return true;
                }
                i += 1;
            }
            false
        },
        EdgeValueMatcher::Ne(vs) => {
            let mut i: usize = 0;
            while i < vs.len()
                invariant
                    0 <= i <= vs@.len(),
                    matcher.view_matcher() == EdgeMatchV::NoneOf(crate::query::fvalues(vs@)),
                    forall|j: int| 0 <= j < i ==> !values_match(actual@, #[trigger] crate::query::fvalues(vs@)[j]),
                decreases vs@.len() - i,
            {
                if feature_values_match(actual, &vs[i]) {
                    assert(values_match(actual@, crate::query::fvalues(vs@)[i as int]));
                    let ghost fv = crate::query::fvalues(vs@);
                    assert(0 <= i < fv.len() && values_match(actual@, fv[i as int]));
                    assert(matches_one(actual@, fv));
                    return false;
                }
                i += 1;
            }
            true
        },
        EdgeValueMatcher::Regex(re) => match actual {
            FeatureValue::Str(s) => regex_is_match(re, s.as_str()),
            FeatureValue::Int(n) => {
                let t = crate::strs::i64_to_string(*n);
                regex_is_match(re, t.as_str())
            },
        },
    }
}

} // verus!
