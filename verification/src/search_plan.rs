//! A summary of a search template: how many atoms and relations it has, and whether
//! it holds quantifiers.

use vstd::prelude::*;
use crate::edge_tables::min_usize;
use crate::error::{CfError, CfErrorView};
use crate::query::{
    blocks_view, lines_spec, parse_query, parse_quantified_template, quantified_spec, query_spec, text_lines, PlanV,
    QuantifierKind,
};
use crate::strs::{copy_string, owned, str_eq, trim_spec, trim_str, views};

verus! {

/// The summary of a search template and of the number of its results.
#[derive(Debug, Clone, PartialEq, Eq)]
pub struct SearchPlanSummary {
    pub template: String,
    pub atom_count: usize,
    pub relation_count: usize,
    pub result_count: usize,
    pub has_quantifiers: bool,
}

/// A line that opens or continues a quantifier.
pub open spec fn is_quantifier_token(t: Seq<char>) -> bool {
    t == "/where/"@ || t == "/have/"@ || t == "/with/"@ || t == "/without/"@ || t == "/or/"@
}

/// Some line of `t`, trimmed, is a quantifier keyword.
pub open spec fn template_has_quantifiers(t: Seq<char>) -> bool {
    exists|i: int| 0 <= i < lines_spec(t).len() && is_quantifier_token(trim_spec(#[trigger] lines_spec(t)[i]))
}

/// The alternatives of the blocks, block after block.
pub open spec fn alternatives_of(blocks: Seq<(QuantifierKind, Seq<Seq<char>>)>) -> Seq<Seq<char>>
    decreases blocks.len(),
{
    if blocks.len() == 0 {
        seq![]
    } else {
        alternatives_of(blocks.drop_last()) + blocks.last().1
    }
}

/// The plans of the templates `alts`, or the error of the first that fails.
#[verifier::opaque]
pub open spec fn plans_of(alts: Seq<Seq<char>>) -> Result<Seq<PlanV>, CfErrorView>
    decreases alts.len(),
{
    if alts.len() == 0 {
        Ok(seq![])
    } else {
        match plans_of(alts.drop_last()) {
            Err(e) => Err(e),
            Ok(ps) => match query_spec(alts.last()) {
                Err(e) => Err(e),
                Ok(p) => Ok(ps.push(p)),
            },
        }
    }
}

/// The number of atoms of the plans.
pub open spec fn sum_atoms(ps: Seq<PlanV>) -> nat
    decreases ps.len(),
{
    if ps.len() == 0 {
        0
    } else {
        sum_atoms(ps.drop_last()) + ps.last().atoms.len()
    }
}

/// The number of relations of the plans.
pub open spec fn sum_relations(ps: Seq<PlanV>) -> nat
    decreases ps.len(),
{
    if ps.len() == 0 {
        0
    } else {
        sum_relations(ps.drop_last()) + ps.last().relations.len()
    }
}

/// The atoms and relations of template `t`, and whether it has quantifiers: with
/// quantifiers, those of its base and of all alternatives of its blocks; or the first
/// error in reading it.
pub open spec fn summary_spec(t: Seq<char>) -> Result<(nat, nat, bool), CfErrorView> {
    if template_has_quantifiers(t) {
        match quantified_spec(t) {
            Err(e) => Err(e),
            Ok(q) => match query_spec(q.0) {
                Err(e) => Err(e),
                Ok(bp) => match plans_of(alternatives_of(q.1)) {
                    Err(e) => Err(e),
                    Ok(ps) => Ok((bp.atoms.len() + sum_atoms(ps), bp.relations.len() + sum_relations(ps), true)),
                },
            },
        }
    } else {
        match query_spec(t) {
            Err(e) => Err(e),
            Ok(p) => Ok((p.atoms.len(), p.relations.len(), false)),
        }
    }
}

/// Whether some line of `template`, trimmed, is a quantifier keyword.
pub(crate) fn has_quantifier_line(template: &str) -> (r: bool)
    ensures
        r == template_has_quantifiers(template@),
{
    let lines = text_lines(template);
    let mut i: usize = 0;
    while i < lines.len()
        invariant
            i <= lines@.len(),
            views(lines@) == lines_spec(template@),
            forall|j: int| 0 <= j < i ==> !is_quantifier_token(trim_spec(#[trigger] lines_spec(template@)[j])),
        decreases lines.len() - i,
    {
        let t = trim_str(lines[i].as_str());
        proof {
            assert(views(lines@)[i as int] == lines@[i as int]@);
        }
        let s = t.as_str();
        if str_eq(s, "/where/") || str_eq(s, "/have/") || str_eq(s, "/with/") || str_eq(s, "/without/") || str_eq(s, "/or/") {
            return true;
        }
        i += 1;
    }
    false
}

/// Counts, saturating, of a sequence of plans.
fn add_counts(acc: (usize, usize), atoms: usize, relations: usize) -> (r: (usize, usize))
    ensures
        r.0 == min_usize(acc.0 as nat + atoms as nat),
        r.1 == min_usize(acc.1 as nat + relations as nat),
{
    (acc.0.saturating_add(atoms), acc.1.saturating_add(relations))
}

/// A summary of `template` with `result_count` results: its numbers of atoms and
/// relations (saturating), and whether it has quantifiers.
pub fn summarize_template(template: &str, result_count: usize) -> (r: Result<SearchPlanSummary, CfError>)
    ensures
        match r {
            Ok(s) => summary_spec(template@) matches Ok(c) && s.template@ == template@ && s.atom_count == min_usize(c.0)
                && s.relation_count == min_usize(c.1) && s.result_count == result_count && s.has_quantifiers == c.2,
            Err(e) => summary_spec(template@) == Err::<(nat, nat, bool), CfErrorView>(e@),
        },
{
    let has_quantifiers = has_quantifier_line(template);
    if !has_quantifiers {
        let plan = match parse_query(template) {
            Ok(p) => p,
            Err(e) => return Err(e),
        };
        return Ok(SearchPlanSummary {
            template: owned(template),
            atom_count: plan.atoms.len(),
            relation_count: plan.relations.len(),
            result_count,
            has_quantifiers: false,
        });
    }
    let quantified = match parse_quantified_template(template) {
        Ok(q) => q,
        Err(e) => return Err(e),
    };
    let base_plan = match parse_query(quantified.base.as_str()) {
        Ok(p) => p,
        Err(e) => return Err(e),
    };
    let ghost blocks = blocks_view(quantified.blocks@);
    let mut alts: Vec<String> = Vec::new();
    let mut b: usize = 0;
    while b < quantified.blocks.len()
        invariant
            b <= quantified.blocks@.len(),
            blocks == blocks_view(quantified.blocks@),
            has_quantifiers == template_has_quantifiers(template@),
            views(alts@) == alternatives_of(blocks.take(b as int)),
        decreases quantified.blocks.len() - b,
    {
        let block = &quantified.blocks[b];
        let ghost a0 = views(alts@);
        let mut k: usize = 0;
        while k < block.alternatives.len()
            invariant
                k <= block.alternatives@.len(),
                views(alts@) == a0 + views(block.alternatives@).take(k as int),
            decreases block.alternatives.len() - k,
        {
            let ghost al = views(alts@);
            alts.push(copy_string(&block.alternatives[k]));
            proof {
                assert(views(alts@) =~= al.push(block.alternatives@[k as int]@));
                assert(views(block.alternatives@).take(k + 1) =~= views(block.alternatives@).take(k as int).push(block.alternatives@[k as int]@));
            }
            k += 1;
        }
        proof {
            assert(views(block.alternatives@).take(block.alternatives@.len() as int) =~= views(block.alternatives@));
            assert(blocks.take(b + 1).drop_last() =~= blocks.take(b as int));
            assert(blocks.take(b + 1).last() == blocks[b as int]);
        }
        b += 1;
    }
    proof {
        assert(blocks.take(blocks.len() as int) =~= blocks);
    }
    let mut counts: (usize, usize) = (base_plan.atoms.len(), base_plan.relations.len());
    let ghost mut ps: Seq<PlanV> = seq![];
    proof {
        reveal(plans_of);
        assert(views(alts@).take(0) =~= Seq::<Seq<char>>::empty());
    }
    let mut i: usize = 0;
    while i < alts.len()
        invariant
            i <= alts@.len(),
            views(alts@) == alternatives_of(blocks),
            has_quantifiers == template_has_quantifiers(template@),
            has_quantifiers,
            quantified_spec(template@) == Ok::<(Seq<char>, Seq<(QuantifierKind, Seq<Seq<char>>)>), CfErrorView>((quantified.base@, blocks)),
            query_spec(quantified.base@) == Ok::<PlanV, CfErrorView>(crate::query::plan_view(base_plan)),
            plans_of(views(alts@).take(i as int)) == Ok::<Seq<PlanV>, CfErrorView>(ps),
            counts.0 == min_usize(base_plan.atoms@.len() + sum_atoms(ps)),
            counts.1 == min_usize(base_plan.relations@.len() + sum_relations(ps)),
        decreases alts.len() - i,
    {
        proof {
            assert(views(alts@)[i as int] == alts@[i as int]@);
        }
        let plan = match parse_query(alts[i].as_str()) {
            Ok(p) => p,
            Err(e) => {
                proof {
                    lemma_plans_step(views(alts@), i as int, ps);
                    lemma_plans_err_extends(views(alts@), i + 1);
                }
                return Err(e);
            },
        };
        let ghost p0 = ps;
        proof {
            lemma_plans_step(views(alts@), i as int, ps);
            ps = ps.push(crate::query::plan_view(plan));
            assert(ps.drop_last() =~= p0);
        }
        counts = add_counts(counts, plan.atoms.len(), plan.relations.len());
        i += 1;
    }
    proof {
        assert(views(alts@).take(alts@.len() as int) =~= views(alts@));
    }
    Ok(SearchPlanSummary {
        template: owned(template),
        atom_count: counts.0,
        relation_count: counts.1,
        result_count,
        has_quantifiers: true,
    })
}

/// Reading one more alternative: its plan joins those before, or its error is the result.
proof fn lemma_plans_step(alts: Seq<Seq<char>>, i: int, ps: Seq<PlanV>)
    requires
        0 <= i < alts.len(),
        plans_of(alts.take(i)) == Ok::<Seq<PlanV>, CfErrorView>(ps),
    ensures
        plans_of(alts.take(i + 1)) == match query_spec(alts[i]) {
            Err(e) => Err(e),
            Ok(p) => Ok::<Seq<PlanV>, CfErrorView>(ps.push(p)),
        },
{
    reveal(plans_of);
    assert(alts.take(i + 1).drop_last() =~= alts.take(i));
    assert(alts.take(i + 1).last() == alts[i]);
}

/// Once reading a prefix of the alternatives fails, reading all of them fails the same way.
proof fn lemma_plans_err_extends(alts: Seq<Seq<char>>, n: int)
    requires
        0 <= n <= alts.len(),
        plans_of(alts.take(n)) is Err,
    ensures
        plans_of(alts) == plans_of(alts.take(n)),
    decreases alts.len() - n,
{
    reveal(plans_of);
    if n < alts.len() {
        assert(alts.take(n + 1).drop_last() =~= alts.take(n));
        lemma_plans_err_extends(alts, n + 1);
    } else {
        assert(alts.take(n) =~= alts);
    }
}

} // verus!
