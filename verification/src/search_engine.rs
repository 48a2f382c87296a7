//! Matching a search template against a corpus: for each atom in turn the nodes that
//! may stand for it, given the nodes chosen for the atoms before it, until every atom
//! has a node and every relation of the template holds.

use vstd::prelude::*;
use crate::corpus::{find_key, find_named, lemma_find_key, pair_key, Corpus};
use crate::error::{CfError, CfErrorView};
use crate::query::{parse_query, plan_view, query_spec, QueryAtom, QueryPlan, RelOpV, Relation, RelationOperator};
use crate::search_plan::{has_quantifier_line, template_has_quantifiers};
use crate::search::{fslot, lslot, rel_spec, Search};
use crate::search_candidates::{sets_view, unknown_feature_message};
use crate::strs::{owned, str_eq};
use crate::sorting::{copy_nodes, lemma_push_contains_pub, sort_triples, sorted_triples};

verus! {

broadcast use vstd::seq_lib::group_to_multiset_ensures;

/// The atom before `k` (counting down) whose indentation is below `ind`.
pub open spec fn last_shallower(atoms: Seq<QueryAtom>, ind: usize, k: int) -> Option<int>
    decreases k,
{
    if k <= 0 {
        None
    } else if atoms[k - 1].indent < ind {
        Some(k - 1)
    } else {
        last_shallower(atoms, ind, k - 1)
    }
}

/// The atom that atom `i` is indented under: the last one before it with less
/// indentation (none for an atom without indentation).
pub open spec fn parent_atom(atoms: Seq<QueryAtom>, i: int) -> Option<int> {
    if atoms[i].indent == 0 {
        None
    } else {
        last_shallower(atoms, atoms[i].indent, i)
    }
}

/// The relation of atom `a` to the atom it is indented under: its operator, else
/// embedding.
pub open spec fn parent_op(a: QueryAtom) -> RelOpV {
    match a.operator {
        Some(op) => op.view_op(),
        None => RelOpV::Embeds,
    }
}

/// Node `x` for atom `i` stands in the required relation to the node of the atom it is
/// indented under.
pub open spec fn parent_ok(c: Corpus, atoms: Seq<QueryAtom>, i: int, row: Seq<u32>, x: u32) -> bool {
    match parent_atom(atoms, i) {
        Some(j) => rel_spec(c, parent_op(atoms[i]), row[j], x),
        None => true,
    }
}

/// The node that atom `i` must lie inside: that of the atom it is indented under, when
/// it relates to it by embedding.
pub open spec fn containment_parent(atoms: Seq<QueryAtom>, i: int, row: Seq<u32>) -> Option<u32> {
    match parent_atom(atoms, i) {
        Some(j) => if parent_op(atoms[i]) == RelOpV::Embeds {
            Some(row[j])
        } else {
            None
        },
        None => None,
    }
}

/// `x` lies inside `root` by its slots: both have first and last slots, those of `x`
/// lie within those of `root`, and `root` contains `x`.
pub open spec fn inside(c: Corpus, root: u32, x: u32) -> bool {
    &&& fslot(c, root) is Some && lslot(c, root) is Some && fslot(c, x) is Some && lslot(c, x) is Some
    &&& fslot(c, root)->0 <= fslot(c, x)->0 <= lslot(c, root)->0
    &&& lslot(c, x)->0 <= lslot(c, root)->0
    &&& c.contains_spec(root, x)
}

/// The node of the row that a relation endpoint names (none for `..` or an unknown or
/// not yet chosen name).
pub open spec fn endpoint(names: Seq<(String, usize)>, row: Seq<u32>, name: Seq<char>) -> Option<u32> {
    if name == ".."@ {
        None
    } else {
        match find_key(names, pair_key::<usize>(), name) {
            Some(k) => if names[k].1 < row.len() {
                Some(row[names[k].1 as int])
            } else {
                None
            },
            None => None,
        }
    }
}

/// The relations whose both endpoints are chosen hold.
pub open spec fn bound_ok(c: Corpus, plan: QueryPlan, row: Seq<u32>) -> bool {
    forall|k: int| 0 <= k < plan.relations@.len() ==> match (
        endpoint(plan.names@, row, (#[trigger] plan.relations@[k]).left@),
        endpoint(plan.names@, row, plan.relations@[k].right@),
    ) {
        (Some(a), Some(b)) => rel_spec(c, plan.relations@[k].operator.view_op(), a, b),
        _ => true,
    }
}

/// Every relation has both endpoints chosen, and holds.
pub open spec fn full_ok(c: Corpus, plan: QueryPlan, row: Seq<u32>) -> bool {
    forall|k: int| 0 <= k < plan.relations@.len() ==> match (
        endpoint(plan.names@, row, (#[trigger] plan.relations@[k]).left@),
        endpoint(plan.names@, row, plan.relations@[k].right@),
    ) {
        (Some(a), Some(b)) => rel_spec(c, plan.relations@[k].operator.view_op(), a, b),
        _ => false,
    }
}

impl Corpus {
    /// Node `row[i]` may stand for atom `i` after the nodes before it: a candidate of
    /// the atom, inside the node it must lie inside, in relation to the node of the atom
    /// it is indented under, and with every relation among the chosen nodes holding.
    pub open spec fn step_ok(&self, plan: QueryPlan, sets: Option<Seq<(Seq<char>, Seq<u32>)>>, row: Seq<u32>, i: int) -> bool {
        let atoms = plan.atoms@;
        &&& self.cand_member(atoms[i], sets, row[i])
        &&& match containment_parent(atoms, i, row.take(i)) {
            Some(root) => inside(*self, root, row[i]),
            None => true,
        }
        &&& parent_ok(*self, atoms, i, row.take(i), row[i])
        &&& bound_ok(*self, plan, row.take(i + 1))
    }

    /// The first nodes of a row are chosen as the search chooses them.
    pub open spec fn prefix_ok(&self, plan: QueryPlan, sets: Option<Seq<(Seq<char>, Seq<u32>)>>, row: Seq<u32>) -> bool {
        &&& row.len() <= plan.atoms@.len()
        &&& forall|i: int| 0 <= i < row.len() ==> #[trigger] self.step_ok(plan, sets, row, i)
    }

    /// `row` is a result of the template `plan`: a node for each atom, chosen as the
    /// search chooses them, with every relation holding.
    pub open spec fn is_result(&self, plan: QueryPlan, sets: Option<Seq<(Seq<char>, Seq<u32>)>>, row: Seq<u32>) -> bool {
        &&& row.len() == plan.atoms@.len()
        &&& self.prefix_ok(plan, sets, row)
        &&& full_ok(*self, plan, row)
    }
}

/// The atom that atom `i` is indented under.
fn parent_atom_exec(atoms: &Vec<QueryAtom>, i: usize) -> (r: Option<usize>)
    requires
        i < atoms@.len(),
    ensures
        match r {
            Some(j) => parent_atom(atoms@, i as int) == Some(j as int) && j < i,
            None => parent_atom(atoms@, i as int) is None,
        },
{
    let ind = atoms[i].indent;
    if ind == 0 {
        return None;
    }
    let mut k: usize = i;
    while k > 0
        invariant
            k <= i < atoms@.len(),
            ind == atoms@[i as int].indent,
            last_shallower(atoms@, ind, i as int) == last_shallower(atoms@, ind, k as int),
        decreases k,
    {
        if atoms[k - 1].indent < ind {
            return Some(k - 1);
        }
        k -= 1;
    }
    None
}

/// The node of the row that a relation endpoint names.
fn endpoint_exec(names: &Vec<(String, usize)>, row: &Vec<u32>, name: &str) -> (r: Option<u32>)
    ensures
        r == endpoint(names@, row@, name@),
{
    proof {
        reveal_strlit("..");
    }
    if str_eq(name, "..") {
        return None;
    }
    match find_named(names, name) {
        Some(k) => {
            let idx = names[k].1;
            if idx < row.len() {
                Some(row[idx])
            } else {
                None
            }
        },
        None => None,
    }
}

impl<'a> Search<'a> {
    /// Whether the relations among the chosen nodes hold; with `full`, also that every
    /// relation has both nodes chosen.
    fn relations_ok(&self, plan: &QueryPlan, row: &Vec<u32>, full: bool) -> (r: bool)
        ensures
            full ==> r == full_ok(*self.corpus, *plan, row@),
            !full ==> r == bound_ok(*self.corpus, *plan, row@),
    {
        let mut k: usize = 0;
        while k < plan.relations.len()
            invariant
                k <= plan.relations@.len(),
                forall|j: int| 0 <= j < k ==> match (
                    endpoint(plan.names@, row@, (#[trigger] plan.relations@[j]).left@),
                    endpoint(plan.names@, row@, plan.relations@[j].right@),
                ) {
                    (Some(a), Some(b)) => rel_spec(*self.corpus, plan.relations@[j].operator.view_op(), a, b),
                    _ => !full,
                },
            decreases plan.relations.len() - k,
        {
            let rel = &plan.relations[k];
            let l = endpoint_exec(&plan.names, row, rel.left.as_str());
            let rr = endpoint_exec(&plan.names, row, rel.right.as_str());
            match (l, rr) {
                (Some(a), Some(b)) => {
                    if !self.relation_operator_holds(&rel.operator, a, b) {
                        return false;
                    }
                },
                _ => {
                    if full {
                        return false;
                    }
                },
            }
            k += 1;
        }
        true
    }

    /// Whether `x` for atom `i` stands in the required relation to the node of the atom
    /// it is indented under.
    fn parent_ok_exec(&self, atoms: &Vec<QueryAtom>, i: usize, row: &Vec<u32>, x: u32) -> (r: bool)
        requires
            i < atoms@.len(),
            row@.len() == i,
        ensures
            r == parent_ok(*self.corpus, atoms@, i as int, row@, x),
    {
        match parent_atom_exec(atoms, i) {
            Some(j) => match &atoms[i].operator {
                Some(op) => self.relation_operator_holds(op, row[j], x),
                None => {
                    let emb = RelationOperator::Embeds;
                    self.relation_operator_holds(&emb, row[j], x)
                },
            },
            None => true,
        }
    }

    /// The node that atom `i` must lie inside.
    fn containment_parent_exec(&self, atoms: &Vec<QueryAtom>, i: usize, row: &Vec<u32>) -> (r: Option<u32>)
        requires
            i < atoms@.len(),
            row@.len() == i,
        ensures
            r == containment_parent(atoms@, i as int, row@),
    {
        match parent_atom_exec(atoms, i) {
            Some(j) => {
                let embeds = match &atoms[i].operator {
                    Some(RelationOperator::Embeds) => true,
                    Some(_) => false,
                    None => true,
                };
                proof {
                    assert(embeds == (parent_op(atoms@[i as int]) == RelOpV::Embeds));
                }
                if embeds {
                    Some(row[j])
                } else {
                    None
                }
            },
            None => None,
        }
    }
}

/// The rows of a list of results.
pub open spec fn rows(m: Seq<Vec<u32>>) -> Seq<Seq<u32>> {
    m.map_values(|v: Vec<u32>| v@)
}

impl Corpus {
    /// `e` is the error for the constraint on an unknown feature that some atom of the
    /// plan reports.
    pub open spec fn atom_error(&self, plan: QueryPlan, e: CfErrorView) -> bool {
        exists|j: int, i: int|
            0 <= j < plan.atoms@.len() && #[trigger] self.reported_unknown(plan.atoms@[j].constraints@, i)
                && e == CfErrorView::InvalidQuery(unknown_feature_message(plan.atoms@[j].constraints@[i].feature@))
    }

    /// `v` holds the candidates of `atom`, all of whose features are known.
    pub open spec fn cands_ok(&self, atom: QueryAtom, sets: Option<Seq<(Seq<char>, Seq<u32>)>>, v: Seq<u32>) -> bool {
        &&& forall|j: int| !#[trigger] self.unknown_at(atom.constraints@, j)
        &&& forall|x: u32| v.contains(x) <==> self.cand_member(atom, sets, x)
    }

    /// `iv` holds the candidates of `atom` that have first and last slots, with those
    /// slots, ascending by first slot, last slot and node.
    pub open spec fn intervals_ok(&self, atom: QueryAtom, sets: Option<Seq<(Seq<char>, Seq<u32>)>>, iv: Seq<(u32, u32, u32)>) -> bool {
        &&& sorted_triples(iv)
        &&& forall|k: int| 0 <= k < iv.len() ==> self.cand_member(atom, sets, (#[trigger] iv[k]).2)
            && fslot(*self, iv[k].2) == Some(iv[k].0) && lslot(*self, iv[k].2) == Some(iv[k].1)
        &&& forall|x: u32| self.cand_member(atom, sets, x) && fslot(*self, x) is Some && lslot(*self, x) is Some
            ==> exists|k: int| 0 <= k < iv.len() && (#[trigger] iv[k]).2 == x
    }

    /// The remembered candidates and intervals are those of their atoms.
    pub open spec fn memo_ok(
        &self,
        plan: QueryPlan,
        sets: Option<Seq<(Seq<char>, Seq<u32>)>>,
        mc: Seq<Option<Vec<u32>>>,
        mi: Seq<Option<Vec<(u32, u32, u32)>>>,
    ) -> bool {
        &&& mc.len() == plan.atoms@.len()
        &&& mi.len() == plan.atoms@.len()
        &&& forall|i: int| 0 <= i < mc.len() && (#[trigger] mc[i]) is Some ==> self.cands_ok(plan.atoms@[i], sets, mc[i]->0@)
        &&& forall|i: int| 0 <= i < mi.len() && (#[trigger] mi[i]) is Some ==> self.intervals_ok(plan.atoms@[i], sets, mi[i]->0@)
    }
}

impl<'a> Search<'a> {
    /// The candidates of atom `i`, computed once.
    fn atom_candidates(
        &self,
        plan: &QueryPlan,
        i: usize,
        mc: &mut Vec<Option<Vec<u32>>>,
        mi: &Vec<Option<Vec<(u32, u32, u32)>>>,
        sets: Option<&[(String, Vec<u32>)]>,
    ) -> (r: Result<Vec<u32>, CfError>)
        requires
            i < plan.atoms@.len(),
            self.corpus.memo_ok(*plan, sets_view(sets), old(mc)@, mi@),
        ensures
            self.corpus.memo_ok(*plan, sets_view(sets), final(mc)@, mi@),
            match r {
                Ok(v) => self.corpus.cands_ok(plan.atoms@[i as int], sets_view(sets), v@),
                Err(e) => self.corpus.atom_error(*plan, e@),
            },
    {
        match &mc[i] {
            Some(v) => {
                return Ok(copy_nodes(v.as_slice()));
            },
            None => {},
        }
        match self.candidates(&plan.atoms[i], sets) {
            Ok(v) => {
                let copy = copy_nodes(v.as_slice());
                mc.set(i, Some(v));
                proof {
                    assert forall|k: int| 0 <= k < mc@.len() && (#[trigger] mc@[k]) is Some implies self.corpus.cands_ok(plan.atoms@[k], sets_view(sets), mc@[k]->0@) by {
                        if k != i {
                            assert(mc@[k] == old(mc)@[k]);
                        }
                    }
                }
                Ok(copy)
            },
            Err(e) => {
                proof {
                    let k = choose|k: int| #[trigger] self.corpus.reported_unknown(plan.atoms@[i as int].constraints@, k)
                        && e@ == CfErrorView::InvalidQuery(unknown_feature_message(plan.atoms@[i as int].constraints@[k].feature@));
                    assert(self.corpus.reported_unknown(plan.atoms@[i as int].constraints@, k));
                }
                Err(e)
            },
        }
    }

    /// The candidates of atom `i` with their slots, computed once.
    fn atom_intervals(
        &self,
        plan: &QueryPlan,
        i: usize,
        mc: &mut Vec<Option<Vec<u32>>>,
        mi: &mut Vec<Option<Vec<(u32, u32, u32)>>>,
        sets: Option<&[(String, Vec<u32>)]>,
    ) -> (r: Result<Vec<(u32, u32, u32)>, CfError>)
        requires
            i < plan.atoms@.len(),
            self.corpus.memo_ok(*plan, sets_view(sets), old(mc)@, old(mi)@),
        ensures
            self.corpus.memo_ok(*plan, sets_view(sets), final(mc)@, final(mi)@),
            match r {
                Ok(iv) => self.corpus.intervals_ok(plan.atoms@[i as int], sets_view(sets), iv@),
                Err(e) => self.corpus.atom_error(*plan, e@),
            },
    {
        match &mi[i] {
            Some(iv) => {
                return Ok(copy_triples(iv));
            },
            None => {},
        }
        let cands = match self.atom_candidates(plan, i, mc, mi, sets) {
            Ok(v) => v,
            Err(e) => return Err(e),
        };
        let ghost sv = sets_view(sets);
        let ghost atom = plan.atoms@[i as int];
        let mut iv: Vec<(u32, u32, u32)> = Vec::new();
        let mut k: usize = 0;
        while k < cands.len()
            invariant
                k <= cands@.len(),
                self.corpus.cands_ok(atom, sv, cands@),
                forall|q: int| 0 <= q < iv@.len() ==> self.corpus.cand_member(atom, sv, (#[trigger] iv@[q]).2)
                    && fslot(*self.corpus, iv@[q].2) == Some(iv@[q].0) && lslot(*self.corpus, iv@[q].2) == Some(iv@[q].1),
                forall|q: int| 0 <= q < k && fslot(*self.corpus, #[trigger] cands@[q]) is Some && lslot(*self.corpus, cands@[q]) is Some
                    ==> exists|p: int| 0 <= p < iv@.len() && (#[trigger] iv@[p]).2 == cands@[q],
            decreases cands.len() - k,
        {
            let n = cands[k];
            proof {
                assert(cands@.contains(n));
            }
            match (self.first_slot(n), self.last_slot(n)) {
                (Some(a), Some(b)) => {
                    let ghost i0 = iv@;
                    iv.push((a, b, n));
                    proof {
                        assert(iv@[i0.len() as int].2 == n);
                        assert forall|q: int| 0 <= q < k + 1 && fslot(*self.corpus, #[trigger] cands@[q]) is Some && lslot(*self.corpus, cands@[q]) is Some
                            implies exists|p: int| 0 <= p < iv@.len() && (#[trigger] iv@[p]).2 == cands@[q] by {
                            if q < k {
                                let p = choose|p: int| 0 <= p < i0.len() && (#[trigger] i0[p]).2 == cands@[q];
                                assert(iv@[p] == i0[p]);
                            }
                        }
                    }
                },
                _ => {},
            }
            k += 1;
        }
        let ghost before = iv@;
        sort_triples(&mut iv);
        proof {
            assert forall|q: int| 0 <= q < iv@.len() implies self.corpus.cand_member(atom, sv, (#[trigger] iv@[q]).2)
                && fslot(*self.corpus, iv@[q].2) == Some(iv@[q].0) && lslot(*self.corpus, iv@[q].2) == Some(iv@[q].1) by {
                assert(iv@.to_multiset().count(iv@[q]) > 0);
                assert(before.contains(iv@[q]));
                let p = choose|p: int| 0 <= p < before.len() && before[p] == iv@[q];
            }
            assert forall|x: u32| self.corpus.cand_member(atom, sv, x) && fslot(*self.corpus, x) is Some && lslot(*self.corpus, x) is Some
                implies exists|q: int| 0 <= q < iv@.len() && (#[trigger] iv@[q]).2 == x by {
                assert(cands@.contains(x));
                let q0 = choose|q0: int| 0 <= q0 < cands@.len() && cands@[q0] == x;
                let p = choose|p: int| 0 <= p < before.len() && (#[trigger] before[p]).2 == cands@[q0];
                assert(before.to_multiset().count(before[p]) > 0);
                assert(iv@.contains(before[p]));
                let q = choose|q: int| 0 <= q < iv@.len() && iv@[q] == before[p];
            }
        }
        let copy = copy_triples(&iv);
        let ghost mi0 = mi@;
        mi.set(i, Some(iv));
        proof {
            assert forall|k: int| 0 <= k < mi@.len() && (#[trigger] mi@[k]) is Some implies self.corpus.intervals_ok(plan.atoms@[k], sv, mi@[k]->0@) by {
                if k != i {
                    assert(mi@[k] == mi0[k]);
                }
            }
        }
        Ok(copy)
    }
}

/// A copy of a list of triples.
fn copy_triples(v: &Vec<(u32, u32, u32)>) -> (r: Vec<(u32, u32, u32)>)
    ensures
        r@ == v@,
{
    let mut r: Vec<(u32, u32, u32)> = Vec::new();
    let mut i: usize = 0;
    while i < v.len()
        invariant
            i <= v@.len(),
            r@ == v@.take(i as int),
        decreases v.len() - i,
    {
        r.push(v[i]);
        proof {
            assert(v@.take(i + 1) =~= v@.take(i as int).push(v@[i as int]));
        }
        i += 1;
    }
    proof {
        assert(v@.take(v@.len() as int) =~= v@);
    }
    r
}

impl Corpus {
    /// Whether row position `i` is chosen well depends only on the row up to `i`.
    pub proof fn lemma_step_ok_prefix(
        &self,
        plan: QueryPlan,
        sets: Option<Seq<(Seq<char>, Seq<u32>)>>,
        r1: Seq<u32>,
        r2: Seq<u32>,
        i: int,
    )
        requires
            0 <= i < r1.len(),
            i < r2.len(),
            r1.take(i + 1) == r2.take(i + 1),
        ensures
            self.step_ok(plan, sets, r1, i) == self.step_ok(plan, sets, r2, i),
    {
        assert(r1.take(i) =~= r1.take(i + 1).take(i));
        assert(r2.take(i) =~= r2.take(i + 1).take(i));
        assert(r1[i] == r1.take(i + 1)[i]);
        assert(r2[i] == r2.take(i + 1)[i]);
    }
}

impl<'a> Search<'a> {
    /// The candidates among `iv` that lie inside `root`, in the order of `iv`.
    fn inside_from(&self, iv: &Vec<(u32, u32, u32)>, root: u32) -> (r: Vec<u32>)
        requires
            forall|k: int| 0 <= k < iv@.len() ==> fslot(*self.corpus, (#[trigger] iv@[k]).2) == Some(iv@[k].0)
                && lslot(*self.corpus, iv@[k].2) == Some(iv@[k].1),
        ensures
            forall|x: u32| r@.contains(x) <==> (exists|k: int| 0 <= k < iv@.len() && (#[trigger] iv@[k]).2 == x) && inside(*self.corpus, root, x),
    {
        let mut r: Vec<u32> = Vec::new();
        let (rf, rl) = match (self.first_slot(root), self.last_slot(root)) {
            (Some(a), Some(b)) => (a, b),
            _ => {
                return r;
            },
        };
        let mut k: usize = 0;
        while k < iv.len()
            invariant
                k <= iv@.len(),
                fslot(*self.corpus, root) == Some(rf),
                lslot(*self.corpus, root) == Some(rl),
                forall|q: int| 0 <= q < iv@.len() ==> fslot(*self.corpus, (#[trigger] iv@[q]).2) == Some(iv@[q].0)
                    && lslot(*self.corpus, iv@[q].2) == Some(iv@[q].1),
                forall|x: u32| r@.contains(x) <==> (exists|q: int| 0 <= q < k && (#[trigger] iv@[q]).2 == x) && inside(*self.corpus, root, x),
            decreases iv.len() - k,
        {
            let (a, b, n) = iv[k];
            let keep = rf <= a && a <= rl && b <= rl && self.corpus.contains(root, n);
            proof {
                assert(keep == inside(*self.corpus, root, n));
            }
            let ghost r0 = r@;
            if keep {
                r.push(n);
            }
            proof {
                assert forall|x: u32| r@.contains(x) <==> (exists|q: int| 0 <= q < k + 1 && (#[trigger] iv@[q]).2 == x) && inside(*self.corpus, root, x) by {
                    if keep {
                        lemma_push_contains_pub(r0, n, x);
                    }
                    if exists|q: int| 0 <= q < k + 1 && (#[trigger] iv@[q]).2 == x {
                        let q = choose|q: int| 0 <= q < k + 1 && (#[trigger] iv@[q]).2 == x;
                        if q < k {
                            assert(exists|q2: int| 0 <= q2 < k && (#[trigger] iv@[q2]).2 == x);
                        }
                    }
                    if exists|q: int| 0 <= q < k && (#[trigger] iv@[q]).2 == x {
                        let q = choose|q: int| 0 <= q < k && (#[trigger] iv@[q]).2 == x;
                        assert(0 <= q < k + 1 && iv@[q].2 == x);
                    }
                }
            }
            k += 1;
        }
        r
    }

    /// The nodes that may stand for atom `index` after the nodes `current`: its
    /// candidates, inside the node it must lie inside.
    fn step_candidates(
        &self,
        plan: &QueryPlan,
        index: usize,
        current: &Vec<u32>,
        mc: &mut Vec<Option<Vec<u32>>>,
        mi: &mut Vec<Option<Vec<(u32, u32, u32)>>>,
        sets: Option<&[(String, Vec<u32>)]>,
    ) -> (r: Result<Vec<u32>, CfError>)
        requires
            index < plan.atoms@.len(),
            current@.len() == index,
            self.corpus.memo_ok(*plan, sets_view(sets), old(mc)@, old(mi)@),
        ensures
            self.corpus.memo_ok(*plan, sets_view(sets), final(mc)@, final(mi)@),
            match r {
                Ok(v) => forall|x: u32| v@.contains(x) <==> (self.corpus.cand_member(plan.atoms@[index as int], sets_view(sets), x)
                    && match containment_parent(plan.atoms@, index as int, current@) {
                        Some(root) => inside(*self.corpus, root, x),
                        None => true,
                    }),
                Err(e) => self.corpus.atom_error(*plan, e@),
            },
    {
        match self.containment_parent_exec(&plan.atoms, index, current) {
            Some(root) => {
                let iv = match self.atom_intervals(plan, index, mc, mi, sets) {
                    Ok(iv) => iv,
                    Err(e) => return Err(e),
                };
                let v = self.inside_from(&iv, root);
                proof {
                    assert forall|x: u32| v@.contains(x) <==> (self.corpus.cand_member(plan.atoms@[index as int], sets_view(sets), x)
                        && inside(*self.corpus, root, x)) by {
                        if v@.contains(x) {
                            let k = choose|k: int| 0 <= k < iv@.len() && (#[trigger] iv@[k]).2 == x;
                        }
                    }
                }
                Ok(v)
            },
            None => self.atom_candidates(plan, index, mc, mi, sets),
        }
    }
}

impl Corpus {
    /// `after` is `before` with results added that extend `cur`: all such results when
    /// the limit was not reached, and no more rows than the limit allows.
    pub open spec fn extended(
        &self,
        plan: QueryPlan,
        sets: Option<Seq<(Seq<char>, Seq<u32>)>>,
        cur: Seq<u32>,
        limit: Option<usize>,
        before: Seq<Seq<u32>>,
        after: Seq<Seq<u32>>,
    ) -> bool {
        &&& after.len() >= before.len()
        &&& after.take(before.len() as int) == before
        &&& forall|k: int| before.len() <= k < after.len() ==> self.is_result(plan, sets, #[trigger] after[k])
            && after[k].take(cur.len() as int) == cur
        &&& (limit is None || after.len() < limit->0) ==> forall|row: Seq<u32>|
            #[trigger] self.is_result(plan, sets, row) && row.take(cur.len() as int) == cur ==> after.contains(row)
        &&& limit is Some ==> after.len() <= if before.len() > limit->0 { before.len() } else { limit->0 as nat }
    }
}

impl<'a> Search<'a> {
    /// Adds the results that extend the nodes `current` chosen for the first atoms.
    fn extend_matches(
        &self,
        plan: &QueryPlan,
        index: usize,
        current: &mut Vec<u32>,
        matches: &mut Vec<Vec<u32>>,
        limit: Option<usize>,
        mc: &mut Vec<Option<Vec<u32>>>,
        mi: &mut Vec<Option<Vec<(u32, u32, u32)>>>,
        sets: Option<&[(String, Vec<u32>)]>,
    ) -> (r: Result<(), CfError>)
        requires
            old(current)@.len() == index,
            index <= plan.atoms@.len(),
            self.corpus.prefix_ok(*plan, sets_view(sets), old(current)@),
            self.corpus.memo_ok(*plan, sets_view(sets), old(mc)@, old(mi)@),
        ensures
            final(current)@ == old(current)@,
            self.corpus.memo_ok(*plan, sets_view(sets), final(mc)@, final(mi)@),
            match r {
                Ok(_) => self.corpus.extended(*plan, sets_view(sets), old(current)@, limit, rows(old(matches)@), rows(final(matches)@)),
                Err(e) => self.corpus.atom_error(*plan, e@),
            },
        decreases plan.atoms@.len() - index,
    {
        let ghost sv = sets_view(sets);
        let ghost cur0 = current@;
        let ghost m0 = rows(matches@);
        proof {
            assert(m0.take(m0.len() as int) =~= m0);
        }
        match limit {
            Some(l) => {
                if matches.len() >= l {
                    return Ok(());
                }
            },
            None => {},
        }
        if index == plan.atoms.len() {
            if !self.relations_ok(plan, current, true) {
                proof {
                    assert forall|row: Seq<u32>| #[trigger] self.corpus.is_result(*plan, sv, row) && row.take(index as int) == cur0
                        implies m0.contains(row) by {
                        assert(row =~= cur0);
                    }
                }
                return Ok(());
            }
            let copy = copy_nodes(current.as_slice());
            matches.push(copy);
            proof {
                let after = rows(matches@);
                assert(after =~= m0.push(cur0));
                assert(cur0.take(index as int) =~= cur0);
                assert(self.corpus.is_result(*plan, sv, cur0));
                assert(after.take(m0.len() as int) =~= m0);
                assert forall|row: Seq<u32>| #[trigger] self.corpus.is_result(*plan, sv, row) && row.take(index as int) == cur0
                    implies after.contains(row) by {
                    assert(row =~= cur0);
                    assert(after[m0.len() as int] == row);
                }
            }
            return Ok(());
        }
        let cands = match self.step_candidates(plan, index, current, mc, mi, sets) {
            Ok(v) => v,
            Err(e) => return Err(e),
        };
        let n_atoms = plan.atoms.len();
        let mut k: usize = 0;
        while k < cands.len()
            invariant
                k <= cands@.len(),
                index < plan.atoms@.len(),
                current@ == cur0,
                cur0 == old(current)@,
                cur0.len() == index,
                sv == sets_view(sets),
                m0 == rows(old(matches)@),
                self.corpus.prefix_ok(*plan, sv, cur0),
                self.corpus.memo_ok(*plan, sv, mc@, mi@),
                forall|x: u32| cands@.contains(x) <==> (self.corpus.cand_member(plan.atoms@[index as int], sv, x)
                    && match containment_parent(plan.atoms@, index as int, cur0) {
                        Some(root) => inside(*self.corpus, root, x),
                        None => true,
                    }),
                rows(matches@).len() >= m0.len(),
                rows(matches@).take(m0.len() as int) == m0,
                forall|q: int| m0.len() <= q < rows(matches@).len() ==> self.corpus.is_result(*plan, sv, #[trigger] rows(matches@)[q])
                    && rows(matches@)[q].take(index as int) == cur0,
                (limit is None || rows(matches@).len() < limit->0) ==> forall|row: Seq<u32>|
                    #[trigger] self.corpus.is_result(*plan, sv, row) && row.take(index as int) == cur0
                        && (exists|q: int| 0 <= q < k && cands@[q] == row[index as int]) ==> rows(matches@).contains(row),
                limit is Some ==> rows(matches@).len() <= if m0.len() > limit->0 { m0.len() } else { limit->0 as nat },
                n_atoms == plan.atoms@.len(),
            ensures
                k == cands@.len() || (limit is Some && rows(matches@).len() >= limit->0),
            decreases cands.len() - k,
        {
            let x = cands[k];
            let ghost mk = rows(matches@);
            proof {
                assert(cands@.contains(x));
            }
            let mut went = false;
            if self.parent_ok_exec(&plan.atoms, index, current, x) {
                current.push(x);
                if self.relations_ok(plan, current, false) {
                    proof {
                        let c1 = current@;
                        assert(c1 == cur0.push(x));
                        assert(c1.take(index as int) =~= cur0);
                        assert(c1.take(index + 1) =~= c1);
                        assert forall|i: int| 0 <= i < c1.len() implies #[trigger] self.corpus.step_ok(*plan, sv, c1, i) by {
                            if i < index {
                                assert(c1.take(i + 1) =~= cur0.take(i + 1));
                                assert(self.corpus.step_ok(*plan, sv, cur0, i));
                                self.corpus.lemma_step_ok_prefix(*plan, sv, c1, cur0, i);
                            }
                        }
                    }
                    let res = self.extend_matches(plan, index + 1, current, matches, limit, mc, mi, sets);
                    match res {
                        Ok(_) => {},
                        Err(e) => {
                            current.pop();
                            proof {
                                assert(current@ =~= cur0);
                            }
                            return Err(e);
                        },
                    }
                    went = true;
                }
                current.pop();
                proof {
                    assert(current@ =~= cur0);
                }
            }
            proof {
                let after = rows(matches@);
                if went {
                    assert(after.take(mk.len() as int) == mk);
                    assert(after.take(m0.len() as int) =~= mk.take(m0.len() as int));
                    assert forall|q: int| m0.len() <= q < after.len() implies self.corpus.is_result(*plan, sv, #[trigger] after[q])
                        && after[q].take(index as int) == cur0 by {
                        if q < mk.len() {
                            assert(after[q] == mk[q]);
                        } else {
                            assert(after[q].take(index + 1) == cur0.push(x));
                            assert(after[q].take(index as int) =~= after[q].take(index + 1).take(index as int));
                            assert(cur0.push(x).take(index as int) =~= cur0);
                        }
                    }
                } else {
                    assert(after == mk);
                }
                assert forall|row: Seq<u32>|
                    (limit is None || after.len() < limit->0) && #[trigger] self.corpus.is_result(*plan, sv, row) && row.take(index as int) == cur0
                        && (exists|q: int| 0 <= q < k + 1 && cands@[q] == row[index as int]) implies after.contains(row) by {
                    let q = choose|q: int| 0 <= q < k + 1 && cands@[q] == row[index as int];
                    if q < k {
                        assert(mk.contains(row));
                        let p = choose|p: int| 0 <= p < mk.len() && mk[p] == row;
                        if went {
                            assert(after.take(mk.len() as int)[p] == mk[p]);
                        }
                        assert(after[p] == row);
                    } else {
                        assert(row[index as int] == x);
                        assert(self.corpus.step_ok(*plan, sv, row, index as int));
                        assert(row.take(index + 1) =~= cur0.push(x));
                        if went {
                        } else {
                            assert(row.take(index as int) =~= cur0);
                            assert(row.take(index + 1) =~= cur0.push(x));
                            assert(false);
                        }
                    }
                }
            }
            match limit {
                Some(l) => {
                    if matches.len() >= l {
                        break;
                    }
                },
                None => {},
            }
            k += 1;
        }
        proof {
            let after = rows(matches@);
            assert forall|row: Seq<u32>|
                (limit is None || after.len() < limit->0) && #[trigger] self.corpus.is_result(*plan, sv, row) && row.take(index as int) == cur0
                implies after.contains(row) by {
                if k == cands@.len() {
                    assert(self.corpus.step_ok(*plan, sv, row, index as int));
                    assert(row.take(index as int) == cur0);
                    assert(cands@.contains(row[index as int]));
                    let q = choose|q: int| 0 <= q < cands@.len() && cands@[q] == row[index as int];
                }
            }
        }
        Ok(())
    }
}

impl Corpus {
    /// `rs` are the results of `plan` within `limit`: none for a plan without atoms;
    /// else results only, all of them unless the limit was reached, and no more than it.
    pub open spec fn plan_results_ok(
        &self,
        plan: QueryPlan,
        sets: Option<Seq<(Seq<char>, Seq<u32>)>>,
        limit: Option<usize>,
        rs: Seq<Seq<u32>>,
    ) -> bool {
        if plan.atoms@.len() == 0 {
            rs.len() == 0
        } else {
            self.extended(plan, sets, seq![], limit, seq![], rs)
        }
    }

    /// `r` is what a search for `template` gives: the error of reading it, or for a
    /// plan read from it, its results or the error of one of its atoms.
    pub open spec fn search_ok(
        &self,
        template: Seq<char>,
        sets: Option<Seq<(Seq<char>, Seq<u32>)>>,
        limit: Option<usize>,
        r: Result<Seq<Seq<u32>>, CfErrorView>,
    ) -> bool {
        if template_has_quantifiers(template) {
            r == Err::<Seq<Seq<u32>>, CfErrorView>(CfErrorView::InvalidQuery(quantifiers_refused()))
        } else {
            match query_spec(template) {
                Err(e) => r == Err::<Seq<Seq<u32>>, CfErrorView>(e),
                Ok(pv) => exists|plan: QueryPlan| #[trigger] plan_view(plan) == pv && match r {
                    Ok(rs) => self.plan_results_ok(plan, sets, limit, rs),
                    Err(e) => self.atom_error(plan, e),
                },
            }
        }
    }
}

/// The message for a template with quantifiers, which this search does not evaluate.
pub open spec fn quantifiers_refused() -> Seq<char> {
    "templates with quantifiers are not supported by this search"@
}

/// The view of a search result.
pub open spec fn result_view(r: Result<Vec<Vec<u32>>, CfError>) -> Result<Seq<Seq<u32>>, CfErrorView> {
    match r {
        Ok(m) => Ok(rows(m@)),
        Err(e) => Err(e@),
    }
}

impl<'a> Search<'a> {
    /// The results of a plan, up to `limit` of them: for each atom in turn a node that
    /// may stand for it, until every relation holds.
    pub fn search_plan(&self, plan: &QueryPlan, sets: Option<&[(String, Vec<u32>)]>, limit: Option<usize>) -> (r: Result<Vec<Vec<u32>>, CfError>)
        ensures
            match r {
                Ok(m) => self.corpus.plan_results_ok(*plan, sets_view(sets), limit, rows(m@)),
                Err(e) => self.corpus.atom_error(*plan, e@),
            },
    {
        let mut matches: Vec<Vec<u32>> = Vec::new();
        if plan.atoms.len() == 0 {
            proof {
                assert(rows(matches@) =~= Seq::<Seq<u32>>::empty());
            }
            return Ok(matches);
        }
        let mut mc: Vec<Option<Vec<u32>>> = Vec::new();
        let mut mi: Vec<Option<Vec<(u32, u32, u32)>>> = Vec::new();
        let mut i: usize = 0;
        while i < plan.atoms.len()
            invariant
                i <= plan.atoms@.len(),
                mc@.len() == i,
                mi@.len() == i,
                forall|j: int| 0 <= j < i ==> (#[trigger] mc@[j]) is None,
                forall|j: int| 0 <= j < i ==> (#[trigger] mi@[j]) is None,
            decreases plan.atoms.len() - i,
        {
            mc.push(None);
            mi.push(None);
            i += 1;
        }
        let mut current: Vec<u32> = Vec::new();
        proof {
            assert(self.corpus.prefix_ok(*plan, sets_view(sets), current@));
            assert(rows(matches@) =~= Seq::<Seq<u32>>::empty());
            assert forall|j: int| 0 <= j < mc@.len() && (#[trigger] mc@[j]) is Some implies self.corpus.cands_ok(plan.atoms@[j], sets_view(sets), mc@[j]->0@) by {
                assert(mc@[j] is None);
            }
            assert forall|j: int| 0 <= j < mi@.len() && (#[trigger] mi@[j]) is Some implies self.corpus.intervals_ok(plan.atoms@[j], sets_view(sets), mi@[j]->0@) by {
                assert(mi@[j] is None);
            }
            assert(self.corpus.memo_ok(*plan, sets_view(sets), mc@, mi@));
        }
        match self.extend_matches(plan, 0, &mut current, &mut matches, limit, &mut mc, &mut mi, sets) {
            Ok(_) => {
                proof {
                    assert(current@ =~= Seq::<u32>::empty());
                }
                Ok(matches)
            },
            Err(e) => Err(e),
        }
    }

    /// The results of a template, up to `limit` of them, with named node sets standing
    /// for node types.
    pub fn search_with_sets(&self, template: &str, sets: Option<&[(String, Vec<u32>)]>, limit: Option<usize>) -> (r: Result<Vec<Vec<u32>>, CfError>)
        ensures
            self.corpus.search_ok(template@, sets_view(sets), limit, result_view(r)),
    {
        if has_quantifier_line(template) {
            return Err(CfError::InvalidQuery(owned("templates with quantifiers are not supported by this search")));
        }
        let plan = match parse_query(template) {
            Ok(p) => p,
            Err(e) => return Err(e),
        };
        let r = self.search_plan(&plan, sets, limit);
        proof {
            assert(plan_view(plan) == query_spec(template@)->Ok_0);
        }
        r
    }

    /// The results of a template, up to `limit` of them.
    pub fn search(&self, template: &str, limit: Option<usize>) -> (r: Result<Vec<Vec<u32>>, CfError>)
        ensures
            self.corpus.search_ok(template@, None, limit, result_view(r)),
    {
        self.search_with_sets(template, None, limit)
    }

    /// The number of results of a template, up to `limit`.
    pub fn count(&self, template: &str, limit: Option<usize>) -> (r: Result<usize, CfError>)
        ensures
            exists|s: Result<Vec<Vec<u32>>, CfError>| #[trigger] self.corpus.search_ok(template@, None, limit, result_view(s)) && match s {
                Ok(m) => r is Ok && r->Ok_0 == m@.len(),
                Err(e) => r is Err && r->Err_0@ == e@,
            },
    {
        let s = self.search(template, limit);
        let ghost s2 = s;
        let r = match s {
            Ok(m) => Ok(m.len()),
            Err(e) => Err(e),
        };
        proof {
            assert(self.corpus.search_ok(template@, None, limit, result_view(s2)));
        }
        r
    }
}

} // verus!
