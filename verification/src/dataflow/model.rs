//! What the dataflow computes: the least family of subset relations, one for
//! each point, that is closed under the facts, and the loans live at each point.

use vstd::prelude::*;
use crate::facts::{AllFacts, TableSizes};
use crate::liveness::{dead_at, killed, live, live_at};
use crate::reach::reachable;
use crate::relation::model::{contract, contract_all};
use crate::subset::restricted;

verus! {

/// What the pairs held at the source of a control-flow edge hand on to its
/// target `p`: the regions not live at `p` contracted out, and of what is
/// left the pairs that start at a region live at `p`.
pub open spec fn transfer(
    facts: &AllFacts,
    sizes: TableSizes,
    pairs: Set<(int, int)>,
    p: int,
) -> Set<(int, int)> {
    restricted(contract_all(pairs, dead_at(facts, sizes, p)), live_at(facts, sizes, p))
}

/// The family after the source of control-flow edge `k` handed on to its
/// target: the set at the target has taken in what the set at the source
/// hands on.
pub open spec fn handed_on(
    facts: &AllFacts,
    sizes: TableSizes,
    family: Seq<Set<(int, int)>>,
    k: int,
) -> Seq<Set<(int, int)>> {
    family.update(
        facts.cfg_edge@[k].1.index as int,
        family[facts.cfg_edge@[k].1.index as int].union(
            transfer(
                facts,
                sizes,
                family[facts.cfg_edge@[k].0.index as int],
                facts.cfg_edge@[k].1.index as int,
            ),
        ),
    )
}

/// The family after the first `count` control-flow edges handed on, one
/// after the other.
pub open spec fn swept(
    facts: &AllFacts,
    sizes: TableSizes,
    family: Seq<Set<(int, int)>>,
    count: int,
) -> Seq<Set<(int, int)>>
    decreases count,
{
    if count <= 0 {
        family
    } else {
        handed_on(facts, sizes, swept(facts, sizes, family, count - 1), count - 1)
    }
}

/// The family holds the pair of outlives fact `k` at the point of that fact.
pub open spec fn outlives_held(facts: &AllFacts, family: Seq<Set<(int, int)>>, k: int) -> bool {
    family[facts.outlives@[k].2.index as int].contains(
        (facts.outlives@[k].0.index as int, facts.outlives@[k].1.index as int),
    )
}

/// The family holds at the target of control-flow edge `k` what the pairs at
/// its source hand on.
pub open spec fn edge_held(
    facts: &AllFacts,
    sizes: TableSizes,
    family: Seq<Set<(int, int)>>,
    k: int,
) -> bool {
    transfer(
        facts,
        sizes,
        family[facts.cfg_edge@[k].0.index as int],
        facts.cfg_edge@[k].1.index as int,
    ).subset_of(family[facts.cfg_edge@[k].1.index as int])
}

/// The family, a set of pairs for each point, is closed under the facts: it
/// holds every outlives fact at its point, and along every control-flow edge
/// what the source hands on.
pub open spec fn closed(
    facts: &AllFacts,
    sizes: TableSizes,
    family: Seq<Set<(int, int)>>,
) -> bool {
    &&& family.len() == sizes.points
    &&& forall|k: int| 0 <= k < facts.outlives@.len() ==> #[trigger] outlives_held(facts, family, k)
    &&& forall|k: int|
        0 <= k < facts.cfg_edge@.len() ==> #[trigger] edge_held(facts, sizes, family, k)
}

/// The subset relation at point `p`: the pairs that every closed family holds at `p`.
pub open spec fn subset_at(facts: &AllFacts, sizes: TableSizes, p: int) -> Set<(int, int)> {
    Set::new(
        |pair: (int, int)|
            forall|family: Seq<Set<(int, int)>>| #[trigger]
                closed(facts, sizes, family) ==> family[p].contains(pair),
    )
}

/// The control-flow edges that loan `l` may cross: those that leave a point
/// at which the loan is not killed.
pub open spec fn loan_flow(facts: &AllFacts, l: int) -> Set<(int, int)> {
    Set::new(
        |edge: (int, int)|
            !killed(facts, l, edge.0) && exists|k: int|
                0 <= k < facts.cfg_edge@.len() && (#[trigger] facts.cfg_edge@[k]).0.index == edge.0
                    && facts.cfg_edge@[k].1.index == edge.1,
    )
}

/// Region `r` reaches, along the subset relation at point `p`, a region live at `p`.
pub open spec fn reaches_live(facts: &AllFacts, sizes: TableSizes, p: int, r: int) -> bool {
    exists|x: int| #[trigger]
        reachable(subset_at(facts, sizes, p), r, x) && 0 <= x < sizes.regions && live(facts, p, x)
}

/// Borrow fact `k` makes its loan live at point `p`: the loan flows from the
/// point of the fact to `p` without crossing a kill, and its region reaches a
/// region live at `p`.
pub open spec fn borrow_reaches(facts: &AllFacts, sizes: TableSizes, k: int, p: int) -> bool {
    &&& reachable(
        loan_flow(facts, facts.borrow_region@[k].1.index as int),
        facts.borrow_region@[k].2.index as int,
        p,
    )
    &&& reaches_live(facts, sizes, p, facts.borrow_region@[k].0.index as int)
}

/// Loan `l` is live at point `p`: some borrow fact of the loan makes it so.
pub open spec fn loan_live_at(facts: &AllFacts, sizes: TableSizes, l: int, p: int) -> bool {
    exists|k: int|
        0 <= k < facts.borrow_region@.len() && (#[trigger] facts.borrow_region@[k]).1.index == l
            && borrow_reaches(facts, sizes, k, p)
}

/// Borrow fact `k` makes region `x` restrict its loan at point `p`: the loan
/// flows from the point of the fact to `p` without crossing a kill, and its
/// region reaches `x` along the subset relation at `p`.
pub open spec fn borrow_restricts(
    facts: &AllFacts,
    sizes: TableSizes,
    k: int,
    p: int,
    x: int,
) -> bool {
    &&& reachable(
        loan_flow(facts, facts.borrow_region@[k].1.index as int),
        facts.borrow_region@[k].2.index as int,
        p,
    )
    &&& reachable(subset_at(facts, sizes, p), facts.borrow_region@[k].0.index as int, x)
}

/// Some of the first `count` borrow facts makes region `x` restrict loan `l`
/// at point `p`.
pub open spec fn restricts_upto(
    facts: &AllFacts,
    sizes: TableSizes,
    count: int,
    p: int,
    x: int,
    l: int,
) -> bool {
    exists|k: int|
        0 <= k < count && (#[trigger] facts.borrow_region@[k]).1.index == l && borrow_restricts(
            facts,
            sizes,
            k,
            p,
            x,
        )
}

/// Region `x` restricts loan `l` at point `p`: some borrow fact of the loan
/// makes it so.
pub open spec fn restricts(facts: &AllFacts, sizes: TableSizes, p: int, x: int, l: int) -> bool {
    restricts_upto(facts, sizes, facts.borrow_region@.len() as int, p, x, l)
}

/// For each loan, whether it is live at point `p`.
pub open spec fn live_loans_row(facts: &AllFacts, sizes: TableSizes, p: int) -> Seq<bool> {
    Seq::new(sizes.loans as nat, |l: int| loan_live_at(facts, sizes, l, p))
}

/// Contracting a node out of more pairs leaves more pairs.
pub proof fn lemma_contract_monotone(small: Set<(int, int)>, large: Set<(int, int)>, d: int)
    requires
        small.subset_of(large),
    ensures
        contract(small, d).subset_of(contract(large, d)),
{
}

/// Contracting nodes out of more pairs leaves more pairs.
pub proof fn lemma_contract_all_monotone(
    small: Set<(int, int)>,
    large: Set<(int, int)>,
    dead: Seq<int>,
)
    requires
        small.subset_of(large),
    ensures
        contract_all(small, dead).subset_of(contract_all(large, dead)),
    decreases dead.len(),
{
    if dead.len() > 0 {
        lemma_contract_all_monotone(small, large, dead.drop_last());
        lemma_contract_monotone(
            contract_all(small, dead.drop_last()),
            contract_all(large, dead.drop_last()),
            dead.last(),
        );
    }
}

/// More pairs at the source of an edge hand on more pairs.
pub proof fn lemma_transfer_monotone(
    facts: &AllFacts,
    sizes: TableSizes,
    small: Set<(int, int)>,
    large: Set<(int, int)>,
    p: int,
)
    requires
        small.subset_of(large),
    ensures
        transfer(facts, sizes, small, p).subset_of(transfer(facts, sizes, large, p)),
{
    lemma_contract_all_monotone(small, large, dead_at(facts, sizes, p));
}

/// Every set of `small` is within the set of `large` at the same place.
pub open spec fn below(small: Seq<Set<(int, int)>>, large: Seq<Set<(int, int)>>) -> bool {
    &&& small.len() == large.len()
    &&& forall|p: int| 0 <= p < small.len() ==> (#[trigger] small[p]).subset_of(large[p])
}

/// The family is below every closed family.
pub open spec fn sound(facts: &AllFacts, sizes: TableSizes, family: Seq<Set<(int, int)>>) -> bool {
    forall|other: Seq<Set<(int, int)>>| #[trigger]
        closed(facts, sizes, other) ==> below(family, other)
}

/// Adding the pair of an outlives fact at its point keeps a family below
/// every closed one.
pub proof fn lemma_seed_sound(
    facts: &AllFacts,
    sizes: TableSizes,
    family: Seq<Set<(int, int)>>,
    k: int,
)
    requires
        sound(facts, sizes, family),
        family.len() == sizes.points,
        0 <= k < facts.outlives@.len(),
        facts.outlives@[k].2.index < sizes.points,
    ensures
        sound(
            facts,
            sizes,
            family.update(
                facts.outlives@[k].2.index as int,
                family[facts.outlives@[k].2.index as int].insert(
                    (facts.outlives@[k].0.index as int, facts.outlives@[k].1.index as int),
                ),
            ),
        ),
{
    let p = facts.outlives@[k].2.index as int;
    let next = family.update(
        p,
        family[p].insert((facts.outlives@[k].0.index as int, facts.outlives@[k].1.index as int)),
    );
    assert forall|other: Seq<Set<(int, int)>>| #[trigger]
        closed(facts, sizes, other) implies below(next, other) by {
        assert(below(family, other));
        assert(outlives_held(facts, other, k));
        assert forall|q: int| 0 <= q < next.len() implies (#[trigger] next[q]).subset_of(
            other[q],
        ) by {
            assert(family[q].subset_of(other[q]));
        }
    }
}

/// Adding at the target of an edge what its source hands on keeps a family
/// below every closed one.
pub proof fn lemma_step_sound(
    facts: &AllFacts,
    sizes: TableSizes,
    family: Seq<Set<(int, int)>>,
    k: int,
)
    requires
        sound(facts, sizes, family),
        family.len() == sizes.points,
        0 <= k < facts.cfg_edge@.len(),
        facts.cfg_edge@[k].0.index < sizes.points,
        facts.cfg_edge@[k].1.index < sizes.points,
    ensures
        sound(facts, sizes, handed_on(facts, sizes, family, k)),
{
    let q = facts.cfg_edge@[k].0.index as int;
    let p = facts.cfg_edge@[k].1.index as int;
    let next = family.update(p, family[p].union(transfer(facts, sizes, family[q], p)));
    assert forall|other: Seq<Set<(int, int)>>| #[trigger]
        closed(facts, sizes, other) implies below(next, other) by {
        assert(below(family, other));
        assert(edge_held(facts, sizes, other, k));
        assert(family[q].subset_of(other[q]));
        assert(family[p].subset_of(other[p]));
        lemma_transfer_monotone(facts, sizes, family[q], other[q], p);
        assert forall|i: int| 0 <= i < next.len() implies (#[trigger] next[i]).subset_of(
            other[i],
        ) by {
            assert(family[i].subset_of(other[i]));
        }
    }
}

/// A closed family that is below every closed family holds at each point
/// the subset relation of that point.
pub proof fn lemma_least(facts: &AllFacts, sizes: TableSizes, family: Seq<Set<(int, int)>>, p: int)
    requires
        closed(facts, sizes, family),
        sound(facts, sizes, family),
        0 <= p < sizes.points,
    ensures
        family[p] == subset_at(facts, sizes, p),
{
    assert forall|pair: (int, int)| family[p].contains(pair) <==> subset_at(
        facts,
        sizes,
        p,
    ).contains(pair) by {
        if family[p].contains(pair) {
            assert forall|other: Seq<Set<(int, int)>>| #[trigger]
                closed(facts, sizes, other) implies other[p].contains(pair) by {
                assert(below(family, other));
                assert(family[p].subset_of(other[p]));
            }
        }
    }
    assert(family[p] =~= subset_at(facts, sizes, p));
}

/// The pairs of numbers below `n`.
pub open spec fn square(n: int) -> Set<(int, int)> {
    Set::new(|p: (int, int)| 0 <= p.0 < n && 0 <= p.1 < n)
}

/// The pairs of a number below `h` and a number below `n`.
spec fn rectangle(h: int, n: int) -> Set<(int, int)> {
    Set::new(|p: (int, int)| 0 <= p.0 < h && 0 <= p.1 < n)
}

proof fn lemma_rectangle(h: int, n: int)
    requires
        0 <= h,
        0 <= n,
    ensures
        rectangle(h, n).finite(),
        rectangle(h, n).len() <= h * n,
    decreases h,
{
    if h == 0 {
        assert(rectangle(h, n) =~= Set::<(int, int)>::empty());
    } else {
        lemma_rectangle(h - 1, n);
        let range = vstd::set_lib::set_int_range(0, n);
        vstd::set_lib::lemma_int_range(0, n);
        let f = |b: int| (h - 1, b);
        let row = range.map(f);
        vstd::set_lib::lemma_map_size_bound(range, row, f);
        assert(rectangle(h, n) =~= rectangle(h - 1, n).union(row)) by {
            assert forall|p: (int, int)| rectangle(h, n).contains(p) <==> rectangle(
                h - 1,
                n,
            ).union(row).contains(p) by {
                if rectangle(h, n).contains(p) && p.0 == h - 1 {
                    assert(range.contains(p.1) && p == f(p.1));
                }
            }
        }
        vstd::set_lib::lemma_len_union(rectangle(h - 1, n), row);
        assert(h * n == (h - 1) * n + n) by (nonlinear_arith);
    }
}

/// There are at most `n * n` pairs of numbers below `n`.
pub proof fn lemma_square(n: int)
    requires
        0 <= n,
    ensures
        square(n).finite(),
        square(n).len() <= n * n,
{
    lemma_rectangle(n, n);
    assert(square(n) =~= rectangle(n, n));
}

/// A set of pairs of numbers below `n` that grows has more pairs than before.
pub proof fn lemma_growth(before: Set<(int, int)>, after: Set<(int, int)>, n: int)
    requires
        0 <= n,
        before.subset_of(after),
        after.subset_of(square(n)),
    ensures
        before.finite(),
        after.finite(),
        before.len() <= after.len() <= n * n,
        before != after ==> before.len() < after.len(),
{
    lemma_square(n);
    vstd::set_lib::lemma_len_subset(after, square(n));
    vstd::set_lib::lemma_len_subset(before, after);
    if before.len() == after.len() {
        vstd::set_lib::lemma_subset_equality(before, after);
    }
}

/// The number of pairs in all the sets of a family.
pub open spec fn total(family: Seq<Set<(int, int)>>) -> int
    decreases family.len(),
{
    if family.len() == 0 {
        0
    } else {
        total(family.drop_last()) + family.last().len()
    }
}

/// Replacing one set of a family changes the total by the change of that set.
pub proof fn lemma_total_update(family: Seq<Set<(int, int)>>, p: int, pairs: Set<(int, int)>)
    requires
        0 <= p < family.len(),
    ensures
        total(family.update(p, pairs)) == total(family) - family[p].len() + pairs.len(),
    decreases family.len(),
{
    let next = family.update(p, pairs);
    if p == family.len() - 1 {
        assert(next.drop_last() =~= family.drop_last());
    } else {
        lemma_total_update(family.drop_last(), p, pairs);
        assert(next.drop_last() =~= family.drop_last().update(p, pairs));
    }
}

/// A family whose sets have at most `cap` pairs each has at most
/// `family.len() * cap` pairs in all.
pub proof fn lemma_total_bound(family: Seq<Set<(int, int)>>, cap: int)
    requires
        forall|p: int| 0 <= p < family.len() ==> (#[trigger] family[p]).len() <= cap,
    ensures
        total(family) <= family.len() * cap,
    decreases family.len(),
{
    if family.len() > 0 {
        assert forall|p: int| 0 <= p < family.drop_last().len() implies (
        #[trigger] family.drop_last()[p]).len() <= cap by {
            assert(family.drop_last()[p] == family[p]);
        }
        lemma_total_bound(family.drop_last(), cap);
        assert(family.last() == family[family.len() - 1]);
        assert(family.len() * cap == (family.len() - 1) * cap + cap) by (nonlinear_arith);
    } else {
        assert(family.len() * cap == 0) by (nonlinear_arith)
            requires
                family.len() == 0,
        ;
    }
}

} // verus!
