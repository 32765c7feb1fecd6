//! What the dataflow reads at each point, worked out from the facts once:
//! which regions are live there and which are not, and which loans are killed.

use vstd::prelude::*;
use crate::facts::{loan_positions, region_positions, AllFacts, Loan, Region, TableSizes};

verus! {

/// Region `r` is live at point `p`: it is universal, or a fact says so.
pub open spec fn live(facts: &AllFacts, p: int, r: int) -> bool {
    ||| exists|k: int|
        0 <= k < facts.universal_region@.len() && (#[trigger] facts.universal_region@[k]).index == r
    ||| exists|k: int|
        0 <= k < facts.region_live_at@.len() && (#[trigger] facts.region_live_at@[k]).0.index == r
            && facts.region_live_at@[k].1.index == p
}

/// Loan `l` is killed at point `p`.
pub open spec fn killed(facts: &AllFacts, l: int, p: int) -> bool {
    exists|k: int|
        0 <= k < facts.killed@.len() && (#[trigger] facts.killed@[k]).0.index == l
            && facts.killed@[k].1.index == p
}

/// For each region, whether it is live at point `p`.
pub open spec fn live_row(facts: &AllFacts, sizes: TableSizes, p: int) -> Seq<bool> {
    Seq::new(sizes.regions as nat, |r: int| live(facts, p, r))
}

/// For each loan, whether it is killed at point `p`.
pub open spec fn killed_row(facts: &AllFacts, sizes: TableSizes, p: int) -> Seq<bool> {
    Seq::new(sizes.loans as nat, |l: int| killed(facts, l, p))
}

/// The positions below `count` at which `flags` holds `want`, in rising order.
pub open spec fn indices_where(flags: Seq<bool>, want: bool, count: int) -> Seq<int>
    decreases count,
{
    if count <= 0 {
        Seq::empty()
    } else if flags[count - 1] == want {
        indices_where(flags, want, count - 1).push(count - 1)
    } else {
        indices_where(flags, want, count - 1)
    }
}

/// The regions live at point `p`, in rising order.
pub open spec fn live_at(facts: &AllFacts, sizes: TableSizes, p: int) -> Seq<int> {
    indices_where(live_row(facts, sizes, p), true, sizes.regions as int)
}

/// The regions not live at point `p`, in rising order.
pub open spec fn dead_at(facts: &AllFacts, sizes: TableSizes, p: int) -> Seq<int> {
    indices_where(live_row(facts, sizes, p), false, sizes.regions as int)
}

/// The positions listed are those below `count` at which `flags` holds
/// `want`, each once.
pub proof fn lemma_indices_where(flags: Seq<bool>, want: bool, count: int)
    requires
        count <= flags.len(),
    ensures
        indices_where(flags, want, count).no_duplicates(),
        forall|i: int| #[trigger]
            indices_where(flags, want, count).contains(i) <==> (0 <= i < count && flags[i] == want),
    decreases count,
{
    if count > 0 {
        lemma_indices_where(flags, want, count - 1);
        let before = indices_where(flags, want, count - 1);
        let now = indices_where(flags, want, count);
        assert forall|i: int| #[trigger] now.contains(i) <==> (0 <= i < count && flags[i]
            == want) by {
            if flags[count - 1] == want {
                if now.contains(i) {
                    let k = choose|k: int| 0 <= k < now.len() && now[k] == i;
                    if k < before.len() {
                        assert(before[k] == i);
                    }
                }
                if before.contains(i) {
                    let k = choose|k: int| 0 <= k < before.len() && before[k] == i;
                    assert(now[k] == i);
                }
                if i == count - 1 {
                    assert(now[before.len() as int] == i);
                }
            }
        }
        if flags[count - 1] == want {
            assert forall|i: int, j: int| 0 <= i < now.len() && 0 <= j < now.len() && i
                != j implies now[i] != now[j] by {
                if i < before.len() {
                    assert(before.contains(before[i]));
                }
                if j < before.len() {
                    assert(before.contains(before[j]));
                }
            }
        }
    }
}

/// `rows` rows of `columns` flags, all `false`.
pub fn blank(rows: usize, columns: usize) -> (table: Vec<Vec<bool>>)
    ensures
        table@.len() == rows,
        forall|i: int| 0 <= i < rows ==> (#[trigger] table@[i])@ == Seq::new(
            columns as nat,
            |j: int| false,
        ),
{
    let mut table: Vec<Vec<bool>> = Vec::new();
    let mut i: usize = 0;
    while i < rows
        invariant
            i <= rows,
            table@.len() == i,
            forall|k: int| 0 <= k < i ==> (#[trigger] table@[k])@ == Seq::new(
                columns as nat,
                |j: int| false,
            ),
        decreases rows - i,
    {
        let mut row: Vec<bool> = Vec::new();
        let mut j: usize = 0;
        while j < columns
            invariant
                j <= columns,
                row@ == Seq::new(j as nat, |j: int| false),
            decreases columns - j,
        {
            row.push(false);
            assert(row@ =~= Seq::new((j + 1) as nat, |j: int| false));
            j = j + 1;
        }
        table.push(row);
        i = i + 1;
    }
    table
}

/// Sets the flag in row `i`, column `j`.
pub fn mark(table: &mut Vec<Vec<bool>>, i: usize, j: usize)
    requires
        i < old(table)@.len(),
        j < old(table)@[i as int]@.len(),
    ensures
        final(table)@.len() == old(table)@.len(),
        final(table)@[i as int]@ == old(table)@[i as int]@.update(j as int, true),
        forall|k: int| 0 <= k < old(table)@.len() && k != i ==> final(table)@[k] == old(table)@[k],
{
    let row = &mut table[i];
    row.set(j, true);
}

/// For each point, for each region, whether the region is live at the point.
pub fn region_liveness(facts: &AllFacts, sizes: TableSizes) -> (flags: Vec<Vec<bool>>)
    requires
        facts.within(sizes),
    ensures
        flags@.len() == sizes.points,
        forall|p: int| 0 <= p < sizes.points ==> (#[trigger] flags@[p])@ == live_row(facts, sizes, p),
{
    let mut flags = blank(sizes.points, sizes.regions);
    let mut u: usize = 0;
    assert(facts.table_within(sizes, crate::facts::Table::UniversalRegion));
    assert(facts.table_within(sizes, crate::facts::Table::RegionLiveAt));
    while u < facts.universal_region.len()
        invariant
            u <= facts.universal_region@.len(),
            facts.table_within(sizes, crate::facts::Table::UniversalRegion),
            flags@.len() == sizes.points,
            forall|p: int| 0 <= p < sizes.points ==> (#[trigger] flags@[p])@.len() == sizes.regions,
            forall|p: int, r: int|
                0 <= p < sizes.points && 0 <= r < sizes.regions ==> (#[trigger] flags@[p]@[r]
                    <==> exists|k: int|
                    0 <= k < u && (#[trigger] facts.universal_region@[k]).index == r),
        decreases facts.universal_region@.len() - u,
    {
        let region = facts.universal_region[u];
        assert(facts.row_within(sizes, crate::facts::Table::UniversalRegion, u as int));
        let mut p: usize = 0;
        while p < sizes.points
            invariant
                p <= sizes.points,
                u < facts.universal_region@.len(),
                region == facts.universal_region@[u as int],
                region.index < sizes.regions,
                flags@.len() == sizes.points,
                forall|q: int|
                    0 <= q < sizes.points ==> (#[trigger] flags@[q])@.len() == sizes.regions,
                forall|q: int, r: int|
                    0 <= q < sizes.points && 0 <= r < sizes.regions ==> (#[trigger] flags@[q]@[r]
                        <==> (exists|k: int|
                        0 <= k < u && (#[trigger] facts.universal_region@[k]).index == r) || (q < p
                        && r == region.index)),
            decreases sizes.points - p,
        {
            mark(&mut flags, p, region.index);
            p = p + 1;
        }
        assert forall|p: int, r: int|
            0 <= p < sizes.points && 0 <= r < sizes.regions implies (#[trigger] flags@[p]@[r]
            <==> exists|k: int|
            0 <= k < u + 1 && (#[trigger] facts.universal_region@[k]).index == r) by {
            if r == region.index {
                assert(facts.universal_region@[u as int].index == r);
            }
        }
        u = u + 1;
    }
    let mut i: usize = 0;
    while i < facts.region_live_at.len()
        invariant
            i <= facts.region_live_at@.len(),
            facts.table_within(sizes, crate::facts::Table::RegionLiveAt),
            flags@.len() == sizes.points,
            forall|p: int| 0 <= p < sizes.points ==> (#[trigger] flags@[p])@.len() == sizes.regions,
            forall|p: int, r: int|
                0 <= p < sizes.points && 0 <= r < sizes.regions ==> (#[trigger] flags@[p]@[r]
                    <==> (exists|k: int|
                    0 <= k < facts.universal_region@.len() && (
                    #[trigger] facts.universal_region@[k]).index == r) || (exists|k: int|
                    0 <= k < i && (#[trigger] facts.region_live_at@[k]).0.index == r
                        && facts.region_live_at@[k].1.index == p)),
        decreases facts.region_live_at@.len() - i,
    {
        let fact = facts.region_live_at[i];
        assert(facts.row_within(sizes, crate::facts::Table::RegionLiveAt, i as int));
        let ghost before = flags@;
        mark(&mut flags, fact.1.index, fact.0.index);
        assert forall|p: int, r: int|
            0 <= p < sizes.points && 0 <= r < sizes.regions implies (#[trigger] flags@[p]@[r]
            <==> (exists|k: int|
            0 <= k < facts.universal_region@.len() && (#[trigger] facts.universal_region@[k]).index
                == r) || (exists|k: int|
            0 <= k < i + 1 && (#[trigger] facts.region_live_at@[k]).0.index == r
                && facts.region_live_at@[k].1.index == p)) by {
            if p == fact.1.index && r == fact.0.index {
                assert(facts.region_live_at@[i as int].0.index == r);
            } else {
                assert(flags@[p]@[r] == before[p]@[r]);
            }
        }
        i = i + 1;
    }
    assert forall|p: int| 0 <= p < sizes.points implies (#[trigger] flags@[p])@ == live_row(
        facts,
        sizes,
        p,
    ) by {
        assert forall|r: int| 0 <= r < sizes.regions implies flags@[p]@[r] == live_row(
            facts,
            sizes,
            p,
        )[r] by {
            assert(flags@[p]@[r] <==> live(facts, p, r));
        }
        assert(flags@[p]@ =~= live_row(facts, sizes, p));
    }
    flags
}

/// For each point, for each loan, whether the loan is killed at the point.
pub fn killed_loans(facts: &AllFacts, sizes: TableSizes) -> (flags: Vec<Vec<bool>>)
    requires
        facts.within(sizes),
    ensures
        flags@.len() == sizes.points,
        forall|p: int|
            0 <= p < sizes.points ==> (#[trigger] flags@[p])@ == killed_row(facts, sizes, p),
{
    let mut flags = blank(sizes.points, sizes.loans);
    assert(facts.table_within(sizes, crate::facts::Table::Killed));
    let mut i: usize = 0;
    while i < facts.killed.len()
        invariant
            i <= facts.killed@.len(),
            facts.table_within(sizes, crate::facts::Table::Killed),
            flags@.len() == sizes.points,
            forall|p: int| 0 <= p < sizes.points ==> (#[trigger] flags@[p])@.len() == sizes.loans,
            forall|p: int, l: int|
                0 <= p < sizes.points && 0 <= l < sizes.loans ==> (#[trigger] flags@[p]@[l]
                    <==> exists|k: int|
                    0 <= k < i && (#[trigger] facts.killed@[k]).0.index == l
                        && facts.killed@[k].1.index == p),
        decreases facts.killed@.len() - i,
    {
        let fact = facts.killed[i];
        assert(facts.row_within(sizes, crate::facts::Table::Killed, i as int));
        let ghost before = flags@;
        mark(&mut flags, fact.1.index, fact.0.index);
        assert forall|p: int, l: int|
            0 <= p < sizes.points && 0 <= l < sizes.loans implies (#[trigger] flags@[p]@[l]
            <==> exists|k: int|
            0 <= k < i + 1 && (#[trigger] facts.killed@[k]).0.index == l
                && facts.killed@[k].1.index == p) by {
            if p == fact.1.index && l == fact.0.index {
                assert(facts.killed@[i as int].0.index == l);
            } else {
                assert(flags@[p]@[l] == before[p]@[l]);
            }
        }
        i = i + 1;
    }
    assert forall|p: int| 0 <= p < sizes.points implies (#[trigger] flags@[p])@ == killed_row(
        facts,
        sizes,
        p,
    ) by {
        assert forall|l: int| 0 <= l < sizes.loans implies flags@[p]@[l] == killed_row(
            facts,
            sizes,
            p,
        )[l] by {
            assert(flags@[p]@[l] <==> killed(facts, l, p));
        }
        assert(flags@[p]@ =~= killed_row(facts, sizes, p));
    }
    flags
}

/// The regions at whose position `flags` holds `want`, in rising order.
pub fn regions_where(flags: &Vec<bool>, want: bool) -> (regions: Vec<Region>)
    ensures
        region_positions(regions@) == indices_where(flags@, want, flags@.len() as int),
{
    let mut regions: Vec<Region> = Vec::new();
    let mut i: usize = 0;
    while i < flags.len()
        invariant
            i <= flags@.len(),
            region_positions(regions@) == indices_where(flags@, want, i as int),
        decreases flags@.len() - i,
    {
        if flags[i] == want {
            regions.push(Region { index: i });
            assert(region_positions(regions@) =~= indices_where(flags@, want, i as int).push(
                i as int,
            ));
        }
        i = i + 1;
    }
    regions
}

/// The loans at whose position `flags` holds `true`, in rising order.
pub fn loans_where(flags: &Vec<bool>) -> (loans: Vec<Loan>)
    ensures
        loan_positions(loans@) == indices_where(flags@, true, flags@.len() as int),
{
    let mut loans: Vec<Loan> = Vec::new();
    let mut i: usize = 0;
    while i < flags.len()
        invariant
            i <= flags@.len(),
            loan_positions(loans@) == indices_where(flags@, true, i as int),
        decreases flags@.len() - i,
    {
        if flags[i] {
            loans.push(Loan { index: i });
            assert(loan_positions(loans@) =~= indices_where(flags@, true, i as int).push(i as int));
        }
        i = i + 1;
    }
    loans
}

/// What the dataflow reads at each point: for each region whether it is live
/// there, the live regions, and the regions that are not live.
pub struct Liveness {
    pub flags: Vec<Vec<bool>>,
    pub live_regions: Vec<Vec<Region>>,
    pub dead_regions: Vec<Vec<Region>>,
}

impl Liveness {
    /// The tables hold what the facts say of each point.
    pub open spec fn matches(&self, facts: &AllFacts, sizes: TableSizes) -> bool {
        &&& self.flags@.len() == sizes.points
        &&& self.live_regions@.len() == sizes.points
        &&& self.dead_regions@.len() == sizes.points
        &&& forall|p: int|
            0 <= p < sizes.points ==> (#[trigger] self.flags@[p])@ == live_row(facts, sizes, p)
        &&& forall|p: int|
            0 <= p < sizes.points ==> region_positions((#[trigger] self.live_regions@[p])@)
                == live_at(facts, sizes, p)
        &&& forall|p: int|
            0 <= p < sizes.points ==> region_positions((#[trigger] self.dead_regions@[p])@)
                == dead_at(facts, sizes, p)
    }

    /// Works out the tables from the facts.
    pub fn compute(facts: &AllFacts, sizes: TableSizes) -> (liveness: Liveness)
        requires
            facts.within(sizes),
        ensures
            liveness.matches(facts, sizes),
    {
        let flags = region_liveness(facts, sizes);
        let mut live_regions: Vec<Vec<Region>> = Vec::new();
        let mut dead_regions: Vec<Vec<Region>> = Vec::new();
        let mut p: usize = 0;
        while p < sizes.points
            invariant
                p <= sizes.points,
                flags@.len() == sizes.points,
                forall|q: int|
                    0 <= q < sizes.points ==> (#[trigger] flags@[q])@ == live_row(facts, sizes, q),
                live_regions@.len() == p,
                dead_regions@.len() == p,
                forall|q: int|
                    0 <= q < p ==> region_positions((#[trigger] live_regions@[q])@) == live_at(
                        facts,
                        sizes,
                        q,
                    ),
                forall|q: int|
                    0 <= q < p ==> region_positions((#[trigger] dead_regions@[q])@) == dead_at(
                        facts,
                        sizes,
                        q,
                    ),
            decreases sizes.points - p,
        {
            assert(flags@[p as int]@ == live_row(facts, sizes, p as int));
            live_regions.push(regions_where(&flags[p], true));
            dead_regions.push(regions_where(&flags[p], false));
            p = p + 1;
        }
        Liveness { flags, live_regions, dead_regions }
    }

    /// The regions listed for a point are regions.
    pub proof fn lemma_regions_within(&self, facts: &AllFacts, sizes: TableSizes, p: int)
        requires
            self.matches(facts, sizes),
            0 <= p < sizes.points,
        ensures
            forall|k: int|
                0 <= k < self.live_regions@[p]@.len() ==> (#[trigger] self.live_regions@[p]@[k]).index
                    < sizes.regions,
            forall|k: int|
                0 <= k < self.dead_regions@[p]@.len() ==> (#[trigger] self.dead_regions@[p]@[k]).index
                    < sizes.regions,
    {
        let row = live_row(facts, sizes, p);
        lemma_indices_where(row, true, sizes.regions as int);
        lemma_indices_where(row, false, sizes.regions as int);
        let live = region_positions(self.live_regions@[p]@);
        let dead = region_positions(self.dead_regions@[p]@);
        assert forall|k: int| 0 <= k < self.live_regions@[p]@.len() implies (
        #[trigger] self.live_regions@[p]@[k]).index < sizes.regions by {
            assert(live[k] == self.live_regions@[p]@[k].index);
            assert(live.contains(live[k]));
        }
        assert forall|k: int| 0 <= k < self.dead_regions@[p]@.len() implies (
        #[trigger] self.dead_regions@[p]@[k]).index < sizes.regions by {
            assert(dead[k] == self.dead_regions@[p]@[k].index);
            assert(dead.contains(dead[k]));
        }
    }
}

} // verus!
