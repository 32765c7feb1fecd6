//! The input of the analysis: handles for regions, points and loans, and the
//! tables of facts over them.

use vstd::prelude::*;
use vstd::std_specs::convert::FromSpecImpl;

verus! {

/// Handle of a region: a lifetime variable.
#[derive(Copy, Clone, Debug, PartialOrd, Ord, PartialEq, Eq, Hash)]
pub struct Region {
    pub index: usize,
}

/// Handle of a point: a location in the control-flow graph.
#[derive(Copy, Clone, Debug, PartialOrd, Ord, PartialEq, Eq, Hash)]
pub struct Point {
    pub index: usize,
}

/// Handle of a loan: a single borrow.
#[derive(Copy, Clone, Debug, PartialOrd, Ord, PartialEq, Eq, Hash)]
pub struct Loan {
    pub index: usize,
}

impl From<usize> for Region {
    fn from(index: usize) -> (r: Self) {
        Region { index }
    }
}

impl FromSpecImpl<usize> for Region {
    open spec fn obeys_from_spec() -> bool {
        true
    }

    open spec fn from_spec(index: usize) -> Self {
        Region { index }
    }
}

impl From<usize> for Point {
    fn from(index: usize) -> (r: Self) {
        Point { index }
    }
}

impl FromSpecImpl<usize> for Point {
    open spec fn obeys_from_spec() -> bool {
        true
    }

    open spec fn from_spec(index: usize) -> Self {
        Point { index }
    }
}

impl From<usize> for Loan {
    fn from(index: usize) -> (r: Self) {
        Loan { index }
    }
}

impl FromSpecImpl<usize> for Loan {
    open spec fn obeys_from_spec() -> bool {
        true
    }

    open spec fn from_spec(index: usize) -> Self {
        Loan { index }
    }
}

/// How many regions, points and loans there are. A handle is valid where its
/// index is below the number of its kind.
#[derive(Copy, Clone, Debug, PartialEq, Eq)]
pub struct TableSizes {
    pub regions: usize,
    pub points: usize,
    pub loans: usize,
}

/// The tables of facts that the analysis starts from.
#[derive(Debug)]
pub struct AllFacts {
    /// `(region, loan, point)`: the loan is made at the point, with that region.
    pub borrow_region: Vec<(Region, Loan, Point)>,
    /// `region`: the region is live at every point.
    pub universal_region: Vec<Region>,
    /// `(point, point)`: control may flow from the first point to the second.
    pub cfg_edge: Vec<(Point, Point)>,
    /// `(loan, point)`: the loan is killed at the point.
    pub killed: Vec<(Loan, Point)>,
    /// `(region, region, point)`: the first region outlives the second at the point.
    pub outlives: Vec<(Region, Region, Point)>,
    /// `(region, point)`: the region is live at the point.
    pub region_live_at: Vec<(Region, Point)>,
}

/// One of the tables of facts.
#[derive(Copy, Clone, Debug, PartialEq, Eq)]
pub enum Table {
    BorrowRegion,
    UniversalRegion,
    CfgEdge,
    Killed,
    Outlives,
    RegionLiveAt,
}

/// A row of a table holds a handle that is out of range.
#[derive(Copy, Clone, Debug, PartialEq, Eq)]
pub struct FactError {
    pub table: Table,
    pub row: usize,
}

impl Table {
    /// The place of the table in the order in which the tables are checked.
    pub open spec fn rank(self) -> int {
        match self {
            Table::BorrowRegion => 0,
            Table::UniversalRegion => 1,
            Table::CfgEdge => 2,
            Table::Killed => 3,
            Table::Outlives => 4,
            Table::RegionLiveAt => 5,
        }
    }

    /// The name of the table.
    pub fn name(self) -> (name: &'static str)
        ensures
            name@ == match self {
                Table::BorrowRegion => "borrow_region"@,
                Table::UniversalRegion => "universal_region"@,
                Table::CfgEdge => "cfg_edge"@,
                Table::Killed => "killed"@,
                Table::Outlives => "outlives"@,
                Table::RegionLiveAt => "region_live_at"@,
            },
    {
        match self {
            Table::BorrowRegion => "borrow_region",
            Table::UniversalRegion => "universal_region",
            Table::CfgEdge => "cfg_edge",
            Table::Killed => "killed",
            Table::Outlives => "outlives",
            Table::RegionLiveAt => "region_live_at",
        }
    }
}

impl AllFacts {
    /// The number of rows of a table.
    pub open spec fn rows(&self, table: Table) -> int {
        match table {
            Table::BorrowRegion => self.borrow_region@.len() as int,
            Table::UniversalRegion => self.universal_region@.len() as int,
            Table::CfgEdge => self.cfg_edge@.len() as int,
            Table::Killed => self.killed@.len() as int,
            Table::Outlives => self.outlives@.len() as int,
            Table::RegionLiveAt => self.region_live_at@.len() as int,
        }
    }

    /// Every handle in a row of a table is in range.
    pub open spec fn row_within(&self, sizes: TableSizes, table: Table, row: int) -> bool {
        match table {
            Table::BorrowRegion => {
                &&& self.borrow_region@[row].0.index < sizes.regions
                &&& self.borrow_region@[row].1.index < sizes.loans
                &&& self.borrow_region@[row].2.index < sizes.points
            },
            Table::UniversalRegion => self.universal_region@[row].index < sizes.regions,
            Table::CfgEdge => {
                &&& self.cfg_edge@[row].0.index < sizes.points
                &&& self.cfg_edge@[row].1.index < sizes.points
            },
            Table::Killed => {
                &&& self.killed@[row].0.index < sizes.loans
                &&& self.killed@[row].1.index < sizes.points
            },
            Table::Outlives => {
                &&& self.outlives@[row].0.index < sizes.regions
                &&& self.outlives@[row].1.index < sizes.regions
                &&& self.outlives@[row].2.index < sizes.points
            },
            Table::RegionLiveAt => {
                &&& self.region_live_at@[row].0.index < sizes.regions
                &&& self.region_live_at@[row].1.index < sizes.points
            },
        }
    }

    /// Every handle in the first `count` rows of a table is in range.
    pub open spec fn rows_within(&self, sizes: TableSizes, table: Table, count: int) -> bool {
        forall|row: int| 0 <= row < count ==> #[trigger] self.row_within(sizes, table, row)
    }

    /// Every handle in a table is in range.
    pub open spec fn table_within(&self, sizes: TableSizes, table: Table) -> bool {
        self.rows_within(sizes, table, self.rows(table))
    }

    /// Every handle in the facts is in range.
    pub open spec fn within(&self, sizes: TableSizes) -> bool {
        forall|table: Table| #[trigger] self.table_within(sizes, table)
    }

    /// `error` names the first row that holds a handle out of range: the
    /// tables taken in their order, the rows of a table from the first on.
    pub open spec fn first_fault(&self, sizes: TableSizes, error: FactError) -> bool {
        &&& 0 <= error.row < self.rows(error.table)
        &&& !self.row_within(sizes, error.table, error.row as int)
        &&& self.rows_within(sizes, error.table, error.row as int)
        &&& forall|table: Table|
            table.rank() < error.table.rank() ==> #[trigger] self.table_within(sizes, table)
    }

    /// Checks one table: the first row with a handle out of range, if there is one.
    fn check_table(&self, sizes: TableSizes, table: Table) -> (fault: Option<usize>)
        ensures
            fault is None <==> self.table_within(sizes, table),
            fault matches Some(row) ==> {
                &&& 0 <= row < self.rows(table)
                &&& !self.row_within(sizes, table, row as int)
                &&& self.rows_within(sizes, table, row as int)
            },
    {
        let count = match table {
            Table::BorrowRegion => self.borrow_region.len(),
            Table::UniversalRegion => self.universal_region.len(),
            Table::CfgEdge => self.cfg_edge.len(),
            Table::Killed => self.killed.len(),
            Table::Outlives => self.outlives.len(),
            Table::RegionLiveAt => self.region_live_at.len(),
        };
        let mut row: usize = 0;
        while row < count
            invariant
                count == self.rows(table),
                row <= count,
                self.rows_within(sizes, table, row as int),
            decreases count - row,
        {
            let fine = match table {
                Table::BorrowRegion => {
                    let fact = self.borrow_region[row];
                    fact.0.index < sizes.regions && fact.1.index < sizes.loans && fact.2.index
                        < sizes.points
                },
                Table::UniversalRegion => self.universal_region[row].index < sizes.regions,
                Table::CfgEdge => {
                    let fact = self.cfg_edge[row];
                    fact.0.index < sizes.points && fact.1.index < sizes.points
                },
                Table::Killed => {
                    let fact = self.killed[row];
                    fact.0.index < sizes.loans && fact.1.index < sizes.points
                },
                Table::Outlives => {
                    let fact = self.outlives[row];
                    fact.0.index < sizes.regions && fact.1.index < sizes.regions && fact.2.index
                        < sizes.points
                },
                Table::RegionLiveAt => {
                    let fact = self.region_live_at[row];
                    fact.0.index < sizes.regions && fact.1.index < sizes.points
                },
            };
            if !fine {
                assert(!self.row_within(sizes, table, row as int));
                return Some(row);
            }
            row = row + 1;
        }
        None
    }

    /// Checks that every handle in the facts is in range, and names the
    /// first row that holds one out of range where not.
    pub fn validate(&self, sizes: TableSizes) -> (result: Result<(), FactError>)
        ensures
            result is Ok <==> self.within(sizes),
            result matches Err(error) ==> self.first_fault(sizes, error),
    {
        if let Some(row) = self.check_table(sizes, Table::BorrowRegion) {
            return Err(FactError { table: Table::BorrowRegion, row });
        }
        if let Some(row) = self.check_table(sizes, Table::UniversalRegion) {
            return Err(FactError { table: Table::UniversalRegion, row });
        }
        if let Some(row) = self.check_table(sizes, Table::CfgEdge) {
            return Err(FactError { table: Table::CfgEdge, row });
        }
        if let Some(row) = self.check_table(sizes, Table::Killed) {
            return Err(FactError { table: Table::Killed, row });
        }
        if let Some(row) = self.check_table(sizes, Table::Outlives) {
            return Err(FactError { table: Table::Outlives, row });
        }
        if let Some(row) = self.check_table(sizes, Table::RegionLiveAt) {
            return Err(FactError { table: Table::RegionLiveAt, row });
        }
        assert forall|table: Table| #[trigger] self.table_within(sizes, table) by {
            match table {
                Table::BorrowRegion => {},
                Table::UniversalRegion => {},
                Table::CfgEdge => {},
                Table::Killed => {},
                Table::Outlives => {},
                Table::RegionLiveAt => {},
            }
        }
        Ok(())
    }
}

/// The positions that a sequence of loans stands for.
pub open spec fn loan_positions(loans: Seq<Loan>) -> Seq<int> {
    Seq::new(loans.len(), |k: int| loans[k].index as int)
}

/// The positions that a sequence of regions stands for.
pub open spec fn region_positions(regions: Seq<Region>) -> Seq<int> {
    Seq::new(regions.len(), |k: int| regions[k].index as int)
}

} // verus!
