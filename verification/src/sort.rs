//! Sort orders: lexicographic key lists over schema column positions.

use vstd::prelude::*;

verus! {

/// One key of a lexicographic sort order: a column position of the table
/// schema plus its direction and null placement.
#[derive(Debug, Clone, Copy, PartialEq, Eq, Structural)]
pub struct SortKey {
    pub column: usize,
    pub descending: bool,
    pub nulls_first: bool,
}

impl SortKey {
    /// An ascending key on the given column, nulls last.
    pub fn asc(column: usize) -> (r: Self)
        ensures
            r == (SortKey { column, descending: false, nulls_first: false }),
    {
        SortKey { column, descending: false, nulls_first: false }
    }

    /// A descending key on the given column, nulls first.
    pub fn desc(column: usize) -> (r: Self)
        ensures
            r == (SortKey { column, descending: true, nulls_first: true }),
    {
        SortKey { column, descending: true, nulls_first: true }
    }
}

/// A lexicographic sort order: keys compared left to right.
#[derive(Debug, PartialEq, Eq)]
pub struct LexOrdering {
    pub keys: Vec<SortKey>,
}

impl View for LexOrdering {
    type V = Seq<SortKey>;

    open spec fn view(&self) -> Seq<SortKey> {
        self.keys@
    }
}

impl Clone for LexOrdering {
    fn clone(&self) -> (res: Self)
        ensures
            res@ == self@,
    {
        let mut keys: Vec<SortKey> = Vec::new();
        let mut i: usize = 0;
        while i < self.keys.len()
            invariant
                i <= self.keys.len(),
                keys@ =~= self.keys@.take(i as int),
            decreases self.keys.len() - i,
        {
            keys.push(self.keys[i]);
            i = i + 1;
        }
        let res = LexOrdering { keys };
        proof {
            assert(res@ =~= self@);
        }
        res
    }
}

impl LexOrdering {
    /// An ordering over the given keys.
    pub fn new(keys: Vec<SortKey>) -> (r: Self)
        ensures
            r@ == keys@,
    {
        LexOrdering { keys }
    }
}

/// The sequence of key sequences of a list of orderings.
pub open spec fn orderings_view(s: Seq<LexOrdering>) -> Seq<Seq<SortKey>> {
    s.map_values(|o: LexOrdering| o@)
}

/// Copies a list of orderings.
pub fn clone_orderings(v: &Vec<LexOrdering>) -> (r: Vec<LexOrdering>)
    ensures
        orderings_view(r@) == orderings_view(v@),
{
    let mut r: Vec<LexOrdering> = Vec::new();
    let mut i: usize = 0;
    while i < v.len()
        invariant
            i <= v.len(),
            r@.len() == i,
            forall|j: int| 0 <= j < i ==> (#[trigger] r@[j])@ == v@[j]@,
        decreases v.len() - i,
    {
        r.push(v[i].clone());
        i = i + 1;
    }
    proof {
        assert(orderings_view(r@) =~= orderings_view(v@));
    }
    r
}

} // verus!
