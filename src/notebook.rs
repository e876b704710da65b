use vstd::prelude::*;

verus! {

/// Page number (1-based) that holds the row of slot `id`.
pub open spec fn page_of(id: nat, rows_per_page: nat) -> nat
    recommends
        rows_per_page > 0,
{
    id / rows_per_page + 1
}

/// Row number (1-based) within its page of slot `id`.
pub open spec fn row_of(id: nat, rows_per_page: nat) -> nat
    recommends
        rows_per_page > 0,
{
    id % rows_per_page + 1
}

/// Where a slot sits in the notebook.
#[derive(Debug, Clone, Copy, PartialEq, Eq, Structural)]
pub struct KanjiRepresentation {
    pub page: u32,
    pub row: u32,
}

impl KanjiRepresentation {
    pub fn new(page: u32, row: u32) -> (r: Self)
        ensures
            r.page == page,
            r.row == row,
    {
        KanjiRepresentation { page, row }
    }
}


} // verus!
