use vstd::prelude::*;

verus! {

/// A finite mapping from pre-operation indices to post-operation indices.
///
/// Structural operations that relocate or renumber elements (merge, isolate,
/// split, compress) return one of these so that callers holding old indices
/// can re-resolve them. Querying an index outside the mapping's domain yields
/// `None`, never a fabricated mapping.
pub struct Converter {
    pub table: Vec<Option<usize>>,
}

impl Converter {
    /// The mathematical content of the mapping: what an old index resolves to.
    pub open spec fn spec_conv(self, i: int) -> Option<usize> {
        if 0 <= i < self.table@.len() {
            self.table@[i]
        } else {
            None
        }
    }

    /// The empty mapping: every index is unknown.
    pub fn new() -> (r: Self)
        ensures
            forall|i: int| r.spec_conv(i) is None,
    {
        Converter { table: Vec::new() }
    }

    /// Resolves an old index to its new index, or `None` if the index is not
    /// in the mapping's domain.
    pub fn conv(&self, i: usize) -> (r: Option<usize>)
        ensures
            r == self.spec_conv(i as int),
    {
        if i < self.table.len() {
            self.table[i]
        } else {
            None
        }
    }
}

} // verus!
